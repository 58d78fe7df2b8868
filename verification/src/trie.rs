//! The prefix tree of patterns: insertion, lookup of every pattern that
//! matches a path, and the merge of two trees.

use vstd::prelude::*;
use crate::path::{classify, segment_of, PathBuf, PathSegment, Segment};
use crate::matching::lemma_sort_by_index;
use crate::util::{lemma_same_after_first, pair_views};

verus! {

/// The key under which a pattern component hangs in a node: the text of a
/// literal, or one of two reserved keys. The name of a variable is no part
/// of it, so patterns that differ only in their variables' names share
/// their nodes.
pub enum SegmentKey {
    Static(Seq<char>),
    Wildcard,
    Variable,
}

/// The key of a pattern component.
pub open spec fn key_of(segment: Segment) -> SegmentKey {
    match segment {
        Segment::Static(text) => SegmentKey::Static(text),
        Segment::Wildcard => SegmentKey::Wildcard,
        Segment::Variable(_) => SegmentKey::Variable,
    }
}

/// The keys of a pattern, component by component.
pub open spec fn keys_of(path: Seq<Seq<char>>) -> Seq<SegmentKey> {
    Seq::new(path.len(), |i: int| key_of(classify(path[i])))
}

/// A literal matches its own text; the wildcard and a variable match any
/// text but the empty one.
pub open spec fn key_matches(key: SegmentKey, text: Seq<char>) -> bool {
    match key {
        SegmentKey::Static(literal) => literal == text,
        SegmentKey::Wildcard => text.len() > 0,
        SegmentKey::Variable => text.len() > 0,
    }
}

/// A pattern matches a path of its own length, component by component.
pub open spec fn keys_match(keys: Seq<SegmentKey>, path: Seq<Seq<char>>) -> bool {
    &&& keys.len() == path.len()
    &&& forall|i: int| 0 <= i < keys.len() ==> key_matches(#[trigger] keys[i], path[i])
}

/// The variables of a pattern, in order: each with its name and the
/// position of the component that it binds.
pub open spec fn bindings_of(path: Seq<Seq<char>>) -> Seq<(Seq<char>, nat)>
    decreases path.len(),
{
    if path.len() == 0 {
        Seq::empty()
    } else {
        let before = bindings_of(path.drop_last());
        match classify(path.last()) {
            Segment::Variable(name) => before.push((name, (path.len() - 1) as nat)),
            _ => before,
        }
    }
}

/// What a trie stores for one registered pattern, as a mathematical value.
pub struct Leaf<T> {
    /// The payload.
    pub data: T,
    /// Its place in the order of registration.
    pub index: usize,
    /// The pattern's variables: name and position.
    pub vars: Seq<(Seq<char>, nat)>,
}

impl<T> Leaf<T> {
    /// Every variable binds a component before `depth`.
    pub open spec fn fits(self, depth: nat) -> bool {
        forall|i: int| 0 <= i < self.vars.len() ==> (#[trigger] self.vars[i]).1 < depth
    }

    /// The same leaf, `shift` places later in the order of registration.
    pub open spec fn shifted(self, shift: usize) -> Leaf<T> {
        Leaf { data: self.data, index: (self.index + shift) as usize, vars: self.vars }
    }
}

/// The leaf that stands for `data`, registered as number `index` under the
/// pattern `path`.
pub open spec fn leaf_of<T>(path: Seq<Seq<char>>, data: T, index: usize) -> Leaf<T> {
    Leaf { data, index, vars: bindings_of(path) }
}

/// One result of a lookup, as a mathematical value.
pub struct Match<T> {
    /// The payload.
    pub data: T,
    /// Its place in the order of registration.
    pub index: usize,
    /// What each variable of the pattern was bound to: name and text.
    pub vars: Seq<(Seq<char>, Seq<char>)>,
}

/// The match that a leaf gives on a path: each variable bound to the
/// component at its position.
pub open spec fn bind<T>(leaf: Leaf<T>, path: Seq<Seq<char>>) -> Match<T> {
    Match {
        data: leaf.data,
        index: leaf.index,
        vars: Seq::new(leaf.vars.len(), |i: int| (leaf.vars[i].0, path[leaf.vars[i].1 as int])),
    }
}

/// Where a match with the index `index` goes into `sorted`: behind the
/// last match whose index is not greater.
pub open spec fn insert_position<T>(sorted: Seq<Match<T>>, index: usize) -> int
    decreases sorted.len(),
{
    if sorted.len() == 0 {
        0
    } else if sorted.last().index <= index {
        sorted.len() as int
    } else {
        insert_position(sorted.drop_last(), index)
    }
}

/// `sorted` with `found` put in at its place.
pub open spec fn sorted_insert<T>(sorted: Seq<Match<T>>, found: Match<T>) -> Seq<Match<T>> {
    sorted.insert(insert_position(sorted, found.index), found)
}

/// `sorted` with each of `items` put in at its place, first to last.
pub open spec fn insert_all<T>(sorted: Seq<Match<T>>, items: Seq<Match<T>>) -> Seq<Match<T>>
    decreases items.len(),
{
    if items.len() == 0 {
        sorted
    } else {
        sorted_insert(insert_all(sorted, items.drop_last()), items.last())
    }
}

/// `items` in ascending order of their indices; items with the same index
/// keep their order.
pub open spec fn sort_by_index<T>(items: Seq<Match<T>>) -> Seq<Match<T>> {
    insert_all(Seq::empty(), items)
}

/// The indices ascend, first to last.
pub open spec fn ascending<T>(items: Seq<Match<T>>) -> bool {
    forall|i: int, j: int| 0 <= i < j < items.len() ==> items[i].index <= items[j].index
}

/// Each leaf `shift` places later in the order of registration.
pub open spec fn shifted_all<T>(leaves: Seq<Leaf<T>>, shift: usize) -> Seq<Leaf<T>> {
    Seq::new(leaves.len(), |i: int| leaves[i].shifted(shift))
}

/// What a trie holds: for each pattern, given by its keys, the leaves
/// registered under it, in the order in which they were inserted. A pattern
/// without leaves has the empty list.
pub type Store<T> = Map<Seq<SegmentKey>, Seq<Leaf<T>>>;

/// The store of a trie without patterns.
pub open spec fn empty_store<T>() -> Store<T> {
    Map::total(|keys: Seq<SegmentKey>| Seq::<Leaf<T>>::empty())
}

/// Under each pattern the leaves of `first`, and behind them those of
/// `second`, each `shift` places later in the order of registration.
pub open spec fn joined<T>(first: Store<T>, second: Store<T>, shift: usize) -> Store<T> {
    Map::total(|keys: Seq<SegmentKey>| first[keys] + shifted_all(second[keys], shift))
}

/// Every index in the store can be moved `shift` places on.
pub open spec fn shiftable<T>(store: Store<T>, shift: usize) -> bool {
    forall|keys: Seq<SegmentKey>, i: int|
        0 <= i < store[keys].len() ==> (#[trigger] store[keys][i]).index + shift <= usize::MAX
}

/// The matches on `path` of the leaves stored under the patterns that have
/// the keys `prefix` and then match `path` from its component `depth` on:
/// for each component first the literal with its text, then the wildcard,
/// then the variable.
pub open spec fn under<T>(
    store: Store<T>,
    prefix: Seq<SegmentKey>,
    path: Seq<Seq<char>>,
    depth: int,
) -> Seq<Match<T>>
    decreases path.len() - depth,
{
    if depth < 0 || depth >= path.len() {
        Seq::new(store[prefix].len(), |i: int| bind(store[prefix][i], path))
    } else {
        let text = path[depth];
        let literal = under(store, prefix.push(SegmentKey::Static(text)), path, depth + 1);
        if text.len() > 0 {
            literal + under(store, prefix.push(SegmentKey::Wildcard), path, depth + 1) + under(
                store,
                prefix.push(SegmentKey::Variable),
                path,
                depth + 1,
            )
        } else {
            literal
        }
    }
}

/// The matches on `path` of every pattern that matches it, before they are
/// put in order.
pub open spec fn candidates<T>(store: Store<T>, path: Seq<Seq<char>>) -> Seq<Match<T>> {
    under(store, Seq::empty(), path, 0)
}

/// What a lookup of `path` gives: the matches of every pattern that
/// matches it, in ascending order of their indices.
pub open spec fn lookup<T>(store: Store<T>, path: Seq<Seq<char>>) -> Seq<Match<T>> {
    sort_by_index(candidates(store, path))
}

/// The key of a child node.
pub enum PathKey {
    Static(String),
    Wildcard,
    Variable,
}

impl View for PathKey {
    type V = SegmentKey;

    open spec fn view(&self) -> SegmentKey {
        match self {
            PathKey::Static(text) => SegmentKey::Static(text@),
            PathKey::Wildcard => SegmentKey::Wildcard,
            PathKey::Variable => SegmentKey::Variable,
        }
    }
}

impl PathKey {
    /// Whether two keys are the same key.
    pub fn same(&self, other: &PathKey) -> (b: bool)
        ensures
            b == (self@ == other@),
    {
        match (self, other) {
            (PathKey::Static(a), PathKey::Static(b)) => *a == *b,
            (PathKey::Wildcard, PathKey::Wildcard) => true,
            (PathKey::Variable, PathKey::Variable) => true,
            _ => false,
        }
    }
}

/// A variable of a pattern: its name, and the position of the component
/// that it binds.
pub struct Binding {
    pub name: String,
    pub position: usize,
}

/// The views of a pattern's variables.
pub open spec fn binding_views(vars: Seq<Binding>) -> Seq<(Seq<char>, nat)> {
    Seq::new(vars.len(), |i: int| (vars[i].name@, vars[i].position as nat))
}

/// The variables of the pattern that `path` stands for.
pub fn bindings(path: &PathBuf) -> (vars: Vec<Binding>)
    ensures
        binding_views(vars@) == bindings_of(path@),
        forall|i: int| 0 <= i < vars@.len() ==> (#[trigger] vars@[i]).position < path@.len(),
{
    let mut vars: Vec<Binding> = Vec::new();
    let mut i: usize = 0;
    while i < path.chunks.len()
        invariant
            i <= path@.len(),
            path@.len() == path.chunks@.len(),
            binding_views(vars@) == bindings_of(path@.take(i as int)),
            forall|k: int| 0 <= k < vars@.len() ==> (#[trigger] vars@[k]).position < i,
        decreases path@.len() - i,
    {
        let ghost prefix = path@.take(i as int + 1);
        proof {
            assert(prefix.drop_last() == path@.take(i as int));
        }
        match segment_of(path.chunks[i].as_str()) {
            PathSegment::Variable(name) => {
                vars.push(Binding { name, position: i });
            },
            _ => {},
        }
        i += 1;
    }
    proof {
        assert(path@.take(path@.len() as int) == path@);
    }
    vars
}

/// What a node stores for one pattern that ends at it.
struct PathData<T> {
    data: T,
    index: usize,
    vars: Vec<Binding>,
}

impl<T> View for PathData<T> {
    type V = Leaf<T>;

    closed spec fn view(&self) -> Leaf<T> {
        Leaf { data: self.data, index: self.index, vars: binding_views(self.vars@) }
    }
}

/// A child of a node, under its key.
struct Edge<T> {
    key: PathKey,
    node: PathNode<T>,
}

/// A prefix tree of patterns. Each node holds the patterns that end at it,
/// in the order in which they were inserted, and one child for each key
/// with which a longer pattern goes on.
pub struct PathNode<T> {
    edges: Vec<Edge<T>>,
    leaves: Vec<PathData<T>>,
}

impl<T> View for PathNode<T> {
    type V = Store<T>;

    closed spec fn view(&self) -> Store<T> {
        Map::total(|keys: Seq<SegmentKey>| self.leaves_at(keys))
    }
}

impl<T> PathNode<T> {
    /// The leaves that end at this node.
    spec fn here(self) -> Seq<Leaf<T>> {
        Seq::new(self.leaves@.len(), |i: int| self.leaves@[i]@)
    }

    /// Whether the node has a child under `key`.
    spec fn has_child(self, key: SegmentKey) -> bool {
        exists|i: int| 0 <= i < self.edges@.len() && (#[trigger] self.edges@[i]).key@ == key
    }

    /// The position of the child under `key`.
    spec fn child_index(self, key: SegmentKey) -> int {
        choose|i: int| 0 <= i < self.edges@.len() && (#[trigger] self.edges@[i]).key@ == key
    }

    /// The child under `key`.
    spec fn child(self, key: SegmentKey) -> PathNode<T> {
        self.edges@[self.child_index(key)].node
    }

    /// No two children share a key.
    spec fn distinct_keys(self) -> bool {
        forall|i: int, j: int|
            0 <= i < j < self.edges@.len() ==> (#[trigger] self.edges@[i]).key@ != (
            #[trigger] self.edges@[j]).key@
    }

    /// The invariant of a node that stands `depth` components below the
    /// root: its children have distinct keys, its leaves bind components
    /// before `depth`, and its children are well formed one level down.
    spec fn wf_at(self, depth: nat) -> bool
        decreases self,
    {
        &&& self.distinct_keys()
        &&& forall|i: int| 0 <= i < self.leaves@.len() ==> (#[trigger] self.leaves@[i])@.fits(depth)
        &&& forall|i: int|
            0 <= i < self.edges@.len() ==> (#[trigger] self.edges@[i]).node.wf_at(depth + 1)
    }

    /// The invariant of a trie.
    pub closed spec fn wf(self) -> bool {
        self.wf_at(0)
    }

    /// The leaves stored under the pattern with the keys `keys`, in the
    /// order in which they were inserted.
    spec fn leaves_at(self, keys: Seq<SegmentKey>) -> Seq<Leaf<T>>
        decreases keys.len(),
    {
        if keys.len() == 0 {
            self.here()
        } else if self.has_child(keys[0]) {
            self.child(keys[0]).leaves_at(keys.drop_first())
        } else {
            Seq::empty()
        }
    }

    /// The store of a trie has a list of leaves for every pattern.
    pub proof fn lemma_view_total(self)
        ensures
            forall|keys: Seq<SegmentKey>| self@.dom().contains(keys),
    {
    }

    /// A trie without patterns.
    pub fn new() -> (node: Self)
        ensures
            node.wf(),
            node@ == empty_store::<T>(),
    {
        let node = Self::empty();
        proof {
            node.lemma_empty(0);
        }
        node
    }

    /// A node without children and leaves.
    fn empty() -> (node: Self)
        ensures
            node.edges@.len() == 0,
            node.leaves@.len() == 0,
    {
        PathNode { edges: Vec::new(), leaves: Vec::new() }
    }

    /// A node without children and leaves is well formed at any depth and
    /// stores nothing.
    proof fn lemma_empty(self, depth: nat)
        requires
            self.edges@.len() == 0,
            self.leaves@.len() == 0,
        ensures
            self.wf_at(depth),
            forall|keys: Seq<SegmentKey>| #[trigger]
                self.leaves_at(keys) == Seq::<Leaf<T>>::empty(),
    {
    }

    /// With distinct keys, the child under a key is the one edge that has
    /// the key.
    proof fn lemma_child_index(self, i: int)
        requires
            self.distinct_keys(),
            0 <= i < self.edges@.len(),
        ensures
            self.has_child(self.edges@[i].key@),
            self.child_index(self.edges@[i].key@) == i,
    {
        let key = self.edges@[i].key@;
        let j = self.child_index(key);
    }

    /// The position of the child under `key`, if there is one.
    fn find(&self, key: &PathKey) -> (r: Option<usize>)
        requires
            self.distinct_keys(),
        ensures
            match r {
                Some(i) => self.has_child(key@) && i == self.child_index(key@) && i
                    < self.edges@.len() && self.edges@[i as int].key@ == key@,
                None => !self.has_child(key@),
            },
    {
        let mut i: usize = 0;
        while i < self.edges.len()
            invariant
                self.distinct_keys(),
                i <= self.edges@.len(),
                forall|j: int| 0 <= j < i ==> (#[trigger] self.edges@[j]).key@ != key@,
            decreases self.edges@.len() - i,
        {
            if self.edges[i].key.same(key) {
                proof {
                    self.lemma_child_index(i as int);
                }
                return Some(i);
            }
            i += 1;
        }
        None
    }

    /// What a node stores after one of its children was replaced by a node
    /// under the same key: under that key what the new child stores, and
    /// elsewhere what it stored before.
    proof fn lemma_child_replaced(self, after: Self, i: int)
        requires
            self.distinct_keys(),
            0 <= i < self.edges@.len(),
            after.edges@.len() == self.edges@.len(),
            after.leaves@ == self.leaves@,
            after.edges@[i].key@ == self.edges@[i].key@,
            forall|j: int|
                0 <= j < self.edges@.len() && j != i ==> after.edges@[j] == self.edges@[j],
        ensures
            after.distinct_keys(),
            forall|keys: Seq<SegmentKey>| #[trigger]
                after.leaves_at(keys) == (if keys.len() > 0 && keys[0] == self.edges@[i].key@ {
                    after.edges@[i].node.leaves_at(keys.drop_first())
                } else {
                    self.leaves_at(keys)
                }),
    {
    }

    /// What a node stores after it got a child under a key that it did not
    /// have: under that key what the child stores, and elsewhere what it
    /// stored before.
    proof fn lemma_child_added(self, after: Self)
        requires
            self.distinct_keys(),
            after.edges@.len() == self.edges@.len() + 1,
            after.leaves@ == self.leaves@,
            !self.has_child(after.edges@.last().key@),
            forall|j: int| 0 <= j < self.edges@.len() ==> after.edges@[j] == self.edges@[j],
        ensures
            after.distinct_keys(),
            forall|keys: Seq<SegmentKey>| #[trigger]
                after.leaves_at(keys) == (if keys.len() > 0 && keys[0] == after.edges@.last().key@ {
                    after.edges@.last().node.leaves_at(keys.drop_first())
                } else {
                    self.leaves_at(keys)
                }),
    {
        let n = self.edges@.len() as int;
        let added = after.edges@[n].key@;
        assert(after.distinct_keys()) by {
            assert forall|a: int, b: int| 0 <= a < b < after.edges@.len() implies (
            #[trigger] after.edges@[a]).key@ != (#[trigger] after.edges@[b]).key@ by {
                assert(after.edges@[a] == self.edges@[a]);
                if b < n {
                    assert(after.edges@[b] == self.edges@[b]);
                    assert(self.edges@[a].key@ != self.edges@[b].key@);
                } else {
                    assert(self.edges@[a].key@ != added);
                }
            }
        }
        assert forall|keys: Seq<SegmentKey>| #[trigger]
            after.leaves_at(keys) == (if keys.len() > 0 && keys[0] == added {
                after.edges@[n].node.leaves_at(keys.drop_first())
            } else {
                self.leaves_at(keys)
            }) by {
            if keys.len() == 0 {
                assert(after.here() == self.here());
            } else {
                let key = keys[0];
                if key == added {
                    after.lemma_child_index(n);
                } else if self.has_child(key) {
                    let j = self.child_index(key);
                    assert(after.edges@[j] == self.edges@[j]);
                    after.lemma_child_index(j);
                } else if after.has_child(key) {
                    let j = after.child_index(key);
                    if j < n {
                        assert(after.edges@[j] == self.edges@[j]);
                    }
                    assert(false);
                }
            }
        }
    }

    /// Stores `leaf` under the pattern that `path` stands for from its
    /// component `depth` on.
    fn insert_at(&mut self, path: &PathBuf, depth: usize, leaf: PathData<T>)
        requires
            old(self).wf_at(depth as nat),
            depth <= path@.len(),
            leaf@.fits(path@.len()),
        ensures
            final(self).wf_at(depth as nat),
            forall|keys: Seq<SegmentKey>| #[trigger]
                final(self).leaves_at(keys) == (if keys == keys_of(path@).skip(depth as int) {
                    old(self).leaves_at(keys).push(leaf@)
                } else {
                    old(self).leaves_at(keys)
                }),
        decreases path@.len() - depth,
    {
        let ghost before = *self;
        let ghost suffix = keys_of(path@).skip(depth as int);
        if depth == path.chunks.len() {
            self.leaves.push(leaf);
            proof {
                assert forall|keys: Seq<SegmentKey>| #[trigger]
                    self.leaves_at(keys) == (if keys == suffix {
                        before.leaves_at(keys).push(leaf@)
                    } else {
                        before.leaves_at(keys)
                    }) by {
                    if keys.len() == 0 {
                        assert(keys == suffix);
                    }
                }
            }
        } else {
            let key = match segment_of(path.chunks[depth].as_str()) {
                PathSegment::Static(text) => PathKey::Static(text),
                PathSegment::Wildcard => PathKey::Wildcard,
                PathSegment::Variable(_) => PathKey::Variable,
            };
            let ghost rest = keys_of(path@).skip(depth as int + 1);
            proof {
                assert(suffix.drop_first() == rest);
            }
            match self.find(&key) {
                Some(i) => {
                    self.edges[i].node.insert_at(path, depth + 1, leaf);
                    proof {
                        before.lemma_child_replaced(*self, i as int);
                        before.lemma_child_index(i as int);
                        assert forall|keys: Seq<SegmentKey>| #[trigger]
                            self.leaves_at(keys) == (if keys == suffix {
                                before.leaves_at(keys).push(leaf@)
                            } else {
                                before.leaves_at(keys)
                            }) by {
                            if keys.len() > 0 && keys[0] == key@ {
                                lemma_same_after_first(keys, suffix);
                            }
                        }
                    }
                },
                None => {
                    let mut node = Self::empty();
                    proof {
                        node.lemma_empty(depth as nat + 1);
                    }
                    node.insert_at(path, depth + 1, leaf);
                    self.edges.push(Edge { key, node });
                    proof {
                        before.lemma_child_added(*self);
                        assert forall|keys: Seq<SegmentKey>| #[trigger]
                            self.leaves_at(keys) == (if keys == suffix {
                                before.leaves_at(keys).push(leaf@)
                            } else {
                                before.leaves_at(keys)
                            }) by {
                            if keys.len() > 0 && keys[0] == key@ {
                                lemma_same_after_first(keys, suffix);
                            }
                        }
                    }
                },
            }
        }
    }

    /// Registers `data` as number `index` under the pattern that `path`
    /// stands for. What was stored stays, in its order; the new leaf comes
    /// last among those of its pattern.
    pub fn insert(&mut self, path: &PathBuf, data: T, index: usize)
        requires
            old(self).wf(),
        ensures
            final(self).wf(),
            final(self)@ == old(self)@.insert(
                keys_of(path@),
                old(self)@[keys_of(path@)].push(leaf_of(path@, data, index)),
            ),
    {
        let vars = bindings(path);
        let leaf = PathData { data, index, vars };
        proof {
            assert(keys_of(path@).skip(0) == keys_of(path@));
        }
        self.insert_at(path, 0, leaf);
    }
}

/// One result of a lookup: the payload of a pattern that matches, its place
/// in the order of registration, and what the pattern's variables were
/// bound to.
pub struct MatchedPath<'a, T> {
    /// The payload.
    pub data: &'a T,
    /// Its place in the order of registration.
    pub index: usize,
    /// Name and text of each variable, in the order of the pattern.
    pub vars: Vec<(String, String)>,
}

impl<'a, T> View for MatchedPath<'a, T> {
    type V = Match<T>;

    open spec fn view(&self) -> Match<T> {
        Match { data: *self.data, index: self.index, vars: pair_views(self.vars@) }
    }
}

/// The results of a lookup as mathematical values.
pub open spec fn match_views<T>(found: Seq<MatchedPath<T>>) -> Seq<Match<T>> {
    Seq::new(found.len(), |i: int| found[i]@)
}

/// Putting in the items of `first` and then those of `second` is putting
/// in the items of both, in that order.
pub proof fn lemma_insert_all_concat<T>(
    sorted: Seq<Match<T>>,
    first: Seq<Match<T>>,
    second: Seq<Match<T>>,
)
    ensures
        insert_all(insert_all(sorted, first), second) == insert_all(sorted, first + second),
    decreases second.len(),
{
    if second.len() == 0 {
    } else {
        lemma_insert_all_concat(sorted, first, second.drop_last());
        assert((first + second).drop_last() == first + second.drop_last());
    }
}

/// Puts `found` into `out` behind the last match whose index is not
/// greater.
fn place<'a, T>(out: &mut Vec<MatchedPath<'a, T>>, found: MatchedPath<'a, T>)
    ensures
        match_views(final(out)@) == sorted_insert(match_views(old(out)@), found@),
{
    let ghost before = match_views(out@);
    let mut pos: usize = out.len();
    proof {
        assert(before.take(pos as int) == before);
    }
    while pos > 0 && out[pos - 1].index > found.index
        invariant
            pos <= out@.len(),
            before == match_views(out@),
            insert_position(before, found.index) == insert_position(
                before.take(pos as int),
                found.index,
            ),
        decreases pos,
    {
        proof {
            assert(before.take(pos as int).drop_last() == before.take(pos as int - 1));
        }
        pos -= 1;
    }
    out.insert(pos, found);
}

impl<T> PathNode<T> {
    /// What `under` gives for the store of this node.
    spec fn under(self, prefix: Seq<SegmentKey>, path: Seq<Seq<char>>, depth: int) -> Seq<
        Match<T>,
    >
        decreases path.len() - depth,
    {
        if depth < 0 || depth >= path.len() {
            Seq::new(
                self.leaves_at(prefix).len(),
                |i: int| bind(self.leaves_at(prefix)[i], path),
            )
        } else {
            let text = path[depth];
            let literal = self.under(prefix.push(SegmentKey::Static(text)), path, depth + 1);
            if text.len() > 0 {
                literal + self.under(prefix.push(SegmentKey::Wildcard), path, depth + 1)
                    + self.under(prefix.push(SegmentKey::Variable), path, depth + 1)
            } else {
                literal
            }
        }
    }

    /// The node's own `under` is that of its store.
    proof fn lemma_under_view(self, prefix: Seq<SegmentKey>, path: Seq<Seq<char>>, depth: int)
        ensures
            self.under(prefix, path, depth) == under(self@, prefix, path, depth),
        decreases path.len() - depth,
    {
        if depth < 0 || depth >= path.len() {
        } else {
            let text = path[depth];
            self.lemma_under_view(prefix.push(SegmentKey::Static(text)), path, depth + 1);
            self.lemma_under_view(prefix.push(SegmentKey::Wildcard), path, depth + 1);
            self.lemma_under_view(prefix.push(SegmentKey::Variable), path, depth + 1);
        }
    }

    /// What a node stores under keys that begin with `key` is what its
    /// child under `key` stores under the rest, and nothing if it has no
    /// such child.
    proof fn lemma_under_child(
        self,
        key: SegmentKey,
        rest: Seq<SegmentKey>,
        path: Seq<Seq<char>>,
        depth: int,
    )
        ensures
            self.under(seq![key] + rest, path, depth) == (if self.has_child(key) {
                self.child(key).under(rest, path, depth)
            } else {
                Seq::empty()
            }),
        decreases path.len() - depth,
    {
        let keys = seq![key] + rest;
        if depth < 0 || depth >= path.len() {
            assert(keys.drop_first() == rest);
        } else {
            let text = path[depth];
            let a = SegmentKey::Static(text);
            let b = SegmentKey::Wildcard;
            let c = SegmentKey::Variable;
            self.lemma_under_child(key, rest.push(a), path, depth + 1);
            self.lemma_under_child(key, rest.push(b), path, depth + 1);
            self.lemma_under_child(key, rest.push(c), path, depth + 1);
        }
    }

    /// Binds the variables of `leaf` to the components of `path`.
    fn matched<'a>(leaf: &'a PathData<T>, path: &PathBuf) -> (found: MatchedPath<'a, T>)
        requires
            leaf@.fits(path@.len()),
        ensures
            found@ == bind(leaf@, path@),
    {
        let mut vars: Vec<(String, String)> = Vec::new();
        let mut i: usize = 0;
        while i < leaf.vars.len()
            invariant
                i <= leaf.vars@.len(),
                leaf@.fits(path@.len()),
                leaf@.vars.len() == leaf.vars@.len(),
                vars@.len() == i,
                forall|k: int|
                    0 <= k < i ==> (#[trigger] vars@[k]).0@ == leaf@.vars[k].0 && vars@[k].1@
                        == path@[leaf@.vars[k].1 as int],
            decreases leaf.vars@.len() - i,
        {
            let position = leaf.vars[i].position;
            proof {
                assert(leaf@.vars[i as int].1 == position);
            }
            let name = leaf.vars[i].name.clone();
            let text = path.chunks[position].clone();
            vars.push((name, text));
            i += 1;
        }
        let found = MatchedPath { data: &leaf.data, index: leaf.index, vars };
        proof {
            assert(found@.vars =~= bind(leaf@, path@).vars);
        }
        found
    }

    /// Puts into `out`, each at its place, the matches that this node and
    /// the nodes below it give on `path` from its component `depth` on.
    fn gather<'a>(&'a self, path: &PathBuf, depth: usize, out: &mut Vec<MatchedPath<'a, T>>)
        requires
            self.wf_at(depth as nat),
            depth <= path@.len(),
        ensures
            match_views(final(out)@) == insert_all(
                match_views(old(out)@),
                self.under(Seq::empty(), path@, depth as int),
            ),
        decreases path@.len() - depth,
    {
        let ghost start = match_views(out@);
        let ghost none = Seq::<SegmentKey>::empty();
        if depth == path.chunks.len() {
            let ghost all = self.under(none, path@, depth as int);
            let mut i: usize = 0;
            while i < self.leaves.len()
                invariant
                    i <= self.leaves@.len(),
                    self.wf_at(depth as nat),
                    depth == path@.len(),
                    all == self.under(none, path@, depth as int),
                    none == Seq::<SegmentKey>::empty(),
                    match_views(out@) == insert_all(start, all.take(i as int)),
                decreases self.leaves@.len() - i,
            {
                let found = Self::matched(&self.leaves[i], path);
                proof {
                    assert(all.take(i as int + 1).drop_last() == all.take(i as int));
                }
                place(out, found);
                i += 1;
            }
            proof {
                assert(all.take(i as int) == all);
            }
        } else {
            let text = &path.chunks[depth];
            let ghost a = SegmentKey::Static(text@);
            let ghost b = SegmentKey::Wildcard;
            let ghost c = SegmentKey::Variable;
            proof {
                self.lemma_under_child(a, none, path@, depth as int + 1);
                self.lemma_under_child(b, none, path@, depth as int + 1);
                self.lemma_under_child(c, none, path@, depth as int + 1);
            }
            let ghost first = self.under(none.push(a), path@, depth as int + 1);
            let ghost second = self.under(none.push(b), path@, depth as int + 1);
            let ghost third = self.under(none.push(c), path@, depth as int + 1);
            match self.find(&PathKey::Static(text.clone())) {
                Some(i) => {
                    self.edges[i].node.gather(path, depth + 1, out);
                },
                None => {},
            }
            if !text.as_str().is_empty() {
                match self.find(&PathKey::Wildcard) {
                    Some(i) => {
                        self.edges[i].node.gather(path, depth + 1, out);
                    },
                    None => {},
                }
                match self.find(&PathKey::Variable) {
                    Some(i) => {
                        self.edges[i].node.gather(path, depth + 1, out);
                    },
                    None => {},
                }
                proof {
                    lemma_insert_all_concat(start, first, second);
                    lemma_insert_all_concat(start, first + second, third);
                }
            }
        }
    }

    /// Every pattern that matches `path`, component by component, with the
    /// texts that its variables were bound to, in ascending order of the
    /// indices. A path that no pattern matches gives the empty list.
    pub fn get<'a>(&'a self, path: &PathBuf) -> (found: Vec<MatchedPath<'a, T>>)
        requires
            self.wf(),
        ensures
            match_views(found@) == lookup(self@, path@),
            ascending(match_views(found@)),
    {
        let mut found: Vec<MatchedPath<'a, T>> = Vec::new();
        proof {
            assert(match_views(found@) == Seq::<Match<T>>::empty());
            self.lemma_under_view(Seq::empty(), path@, 0);
            lemma_sort_by_index(candidates(self@, path@));
        }
        self.gather(path, 0, &mut found);
        found
    }
}

impl<T> PathNode<T> {
    /// Every index below the node can be moved `shift` places on.
    spec fn shiftable(self, shift: usize) -> bool {
        forall|keys: Seq<SegmentKey>, i: int|
            0 <= i < self.leaves_at(keys).len() ==> (#[trigger] self.leaves_at(keys)[i]).index
                + shift <= usize::MAX
    }

    /// Whether one of the first `count` children hangs under `key`.
    spec fn has_child_before(self, key: SegmentKey, count: int) -> bool {
        exists|i: int| 0 <= i < count && i < self.edges@.len() && (#[trigger] self.edges@[i]).key@
            == key
    }

    /// What the node's own leaves and its first `count` children store
    /// under `keys`.
    spec fn partial(self, count: int, keys: Seq<SegmentKey>) -> Seq<Leaf<T>> {
        if keys.len() == 0 || self.has_child_before(keys[0], count) {
            self.leaves_at(keys)
        } else {
            Seq::empty()
        }
    }

    /// What child `i` stores under `rest` is what the node stores under
    /// the child's key and then `rest`.
    proof fn lemma_leaves_of_child(self, i: int, keys: Seq<SegmentKey>)
        requires
            self.distinct_keys(),
            0 <= i < self.edges@.len(),
            keys.len() > 0,
            keys[0] == self.edges@[i].key@,
        ensures
            self.leaves_at(keys) == self.edges@[i].node.leaves_at(keys.drop_first()),
    {
        self.lemma_child_index(i);
    }

    /// A child of a trie whose indices can be moved is such a trie.
    proof fn lemma_child_shiftable(self, i: int, shift: usize)
        requires
            self.distinct_keys(),
            self.shiftable(shift),
            0 <= i < self.edges@.len(),
        ensures
            self.edges@[i].node.shiftable(shift),
    {
        let child = self.edges@[i].node;
        let key = self.edges@[i].key@;
        assert forall|keys: Seq<SegmentKey>, j: int| 0 <= j < child.leaves_at(keys).len() implies (
        #[trigger] child.leaves_at(keys)[j]).index + shift <= usize::MAX by {
            let longer = seq![key] + keys;
            assert(longer.drop_first() == keys);
            self.lemma_leaves_of_child(i, longer);
        }
    }

    /// Takes over what `other` stores, each index moved `shift` places on,
    /// behind what the node stored under the same keys.
    fn merge_at(&mut self, other: PathNode<T>, shift: usize, Ghost(depth): Ghost<nat>)
        requires
            old(self).wf_at(depth),
            other.wf_at(depth),
            other.shiftable(shift),
        ensures
            final(self).wf_at(depth),
            forall|keys: Seq<SegmentKey>| #[trigger]
                final(self).leaves_at(keys) == old(self).leaves_at(keys) + shifted_all(
                    other.leaves_at(keys),
                    shift,
                ),
        decreases other,
    {
        let ghost before = *self;
        let ghost whole = other;
        let ghost none = Seq::<SegmentKey>::empty();
        let PathNode { edges, leaves } = other;
        for leaf in it: leaves
            invariant
                it.seq() == whole.leaves@,
                whole.wf_at(depth),
                whole.shiftable(shift),
                none == Seq::<SegmentKey>::empty(),
                self.edges@ == before.edges@,
                before.wf_at(depth),
                self.here() == before.here() + shifted_all(
                    whole.here().take(it.index() as int),
                    shift,
                ),
                forall|i: int|
                    0 <= i < self.leaves@.len() ==> (#[trigger] self.leaves@[i])@.fits(depth),
        {
            let ghost done = self.here();
            let ghost k = it.index() as int;
            proof {
                assert(whole.leaves_at(none)[k] == leaf@);
            }
            let moved = PathData { data: leaf.data, index: leaf.index + shift, vars: leaf.vars };
            proof {
                assert(moved@ == leaf@.shifted(shift));
            }
            self.leaves.push(moved);
            proof {
                assert(self.here() == done.push(moved@));
            }
        }
        for edge in it: edges
            invariant
                it.seq() == whole.edges@,
                whole == other,
                whole.wf_at(depth),
                whole.shiftable(shift),
                self.wf_at(depth),
                forall|keys: Seq<SegmentKey>| #[trigger]
                    self.leaves_at(keys) == before.leaves_at(keys) + shifted_all(
                        whole.partial(it.index() as int, keys),
                        shift,
                    ),
        {
            let ghost k = it.index() as int;
            let ghost mid = *self;
            let Edge { key, node } = edge;
            proof {
                whole.lemma_child_shiftable(k, shift);
                assert(!whole.has_child_before(key@, k));
            }
            match self.find(&key) {
                Some(i) => {
                    self.edges[i].node.merge_at(node, shift, Ghost(depth + 1));
                    proof {
                        mid.lemma_child_replaced(*self, i as int);
                    }
                },
                None => {
                    let mut fresh = Self::empty();
                    proof {
                        fresh.lemma_empty(depth + 1);
                    }
                    fresh.merge_at(node, shift, Ghost(depth + 1));
                    self.edges.push(Edge { key, node: fresh });
                    proof {
                        mid.lemma_child_added(*self);
                    }
                },
            }
            proof {
                assert forall|keys: Seq<SegmentKey>| #[trigger]
                    self.leaves_at(keys) == before.leaves_at(keys) + shifted_all(
                        whole.partial(k + 1, keys),
                        shift,
                    ) by {
                    if keys.len() > 0 && keys[0] == key@ {
                        whole.lemma_leaves_of_child(k, keys);
                        assert(mid.leaves_at(keys) == before.leaves_at(keys) + shifted_all(
                            Seq::<Leaf<T>>::empty(),
                            shift,
                        ));
                        if mid.has_child(key@) {
                            mid.lemma_leaves_of_child(mid.child_index(key@), keys);
                        }
                    }
                }
            }
        }
    }

    /// Takes over every pattern of `other`, each index moved `shift` places
    /// on. Under each pattern the leaves of `other` come behind those that
    /// the trie stored already, in their order.
    pub fn extend(&mut self, other: PathNode<T>, shift: usize)
        requires
            old(self).wf(),
            other.wf(),
            shiftable(other@, shift),
        ensures
            final(self).wf(),
            final(self)@ == joined(old(self)@, other@, shift),
    {
        proof {
            assert forall|keys: Seq<SegmentKey>, i: int|
                0 <= i < other.leaves_at(keys).len() implies (#[trigger] other.leaves_at(
                keys,
            )[i]).index + shift <= usize::MAX by {
                assert(other@[keys][i].index + shift <= usize::MAX);
            }
        }
        self.merge_at(other, shift, Ghost(0));
    }
}

} // verus!
