//! What a router holds, as a mathematical value, and the tries of the
//! methods.

use vstd::prelude::*;
use crate::dispatch::merged;
use crate::path::PathBuf;
use crate::request::RequestMethod;
use crate::router::Closure;
use crate::trie::{
    bind, empty_store, joined, keys_of, leaf_of, lookup, shiftable, shifted_all, Leaf, Match,
    PathNode, SegmentKey, Store,
};

verus! {

/// What a router holds, as a mathematical value.
#[verifier::ext_equal]
pub struct Registry {
    /// How many handlers were registered: the index of the next one.
    pub counter: nat,
    /// The methods that have a trie: those for which a route was
    /// registered.
    pub methods: Set<RequestMethod>,
    /// For each method the patterns registered for it, with their leaves.
    pub routes: Map<RequestMethod, Store<Closure>>,
    /// The handlers registered without a pattern, in the order in which
    /// they came.
    pub middleware: Seq<Leaf<Closure>>,
}

/// Every index in the store is less than `bound`.
pub open spec fn store_below<T>(store: Store<T>, bound: nat) -> bool {
    forall|keys: Seq<SegmentKey>, i: int|
        0 <= i < store[keys].len() ==> (#[trigger] store[keys][i]).index < bound
}

/// A store with one more leaf is below a bound if it was and the leaf is.
pub proof fn lemma_store_below_push(
    store: Store<Closure>,
    keys: Seq<SegmentKey>,
    leaf: Leaf<Closure>,
    bound: nat,
)
    requires
        store_below(store, bound),
        leaf.index < bound + 1,
    ensures
        store_below(store.insert(keys, store[keys].push(leaf)), bound + 1),
{
    let after = store.insert(keys, store[keys].push(leaf));
    assert forall|k: Seq<SegmentKey>, i: int| 0 <= i < after[k].len() implies (
    #[trigger] after[k][i]).index < bound + 1 by {
        if k == keys {
            if i < store[keys].len() {
                assert(after[k][i] == store[keys][i]);
            }
        } else {
            assert(after[k][i] == store[k][i]);
        }
    }
}

impl Registry {
    /// The registry without handlers.
    pub open spec fn empty() -> Registry {
        Registry {
            counter: 0,
            methods: Set::empty(),
            routes: Map::total(|method: RequestMethod| empty_store::<Closure>()),
            middleware: Seq::empty(),
        }
    }

    /// The registry after `closure` was registered for `method` under the
    /// pattern `path`: it has the index that the counter gave, and comes
    /// last among the leaves of its pattern. The method has a trie from
    /// then on.
    pub open spec fn with_route(
        self,
        method: RequestMethod,
        path: Seq<Seq<char>>,
        closure: Closure,
    ) -> Registry {
        let leaf = leaf_of(path, closure, self.counter as usize);
        let store = self.routes[method];
        Registry {
            counter: self.counter + 1,
            methods: self.methods.insert(method),
            routes: self.routes.insert(
                method,
                store.insert(keys_of(path), store[keys_of(path)].push(leaf)),
            ),
            middleware: self.middleware,
        }
    }

    /// The registry after `closure` was registered without a pattern. No
    /// method gets a trie by it.
    pub open spec fn with_middleware(self, closure: Closure) -> Registry {
        Registry {
            counter: self.counter + 1,
            methods: self.methods,
            routes: self.routes,
            middleware: self.middleware.push(
                Leaf { data: closure, index: self.counter as usize, vars: Seq::empty() },
            ),
        }
    }

    /// The registry after it took over the handlers of `other`: each with
    /// its index moved on by this registry's counter, behind the handlers
    /// that stood in the same place. A method has a trie if it had one in
    /// either.
    pub open spec fn appended(self, other: Registry) -> Registry {
        Registry {
            counter: self.counter + other.counter,
            methods: self.methods.union(other.methods),
            routes: Map::total(
                |method: RequestMethod|
                    joined(self.routes[method], other.routes[method], self.counter as usize),
            ),
            middleware: self.middleware + shifted_all(other.middleware, self.counter as usize),
        }
    }

    /// A leaf stands at place `i` under the pattern with the keys `keys`
    /// among the routes of `method`.
    pub open spec fn holds(self, method: RequestMethod, keys: Seq<SegmentKey>, i: int) -> bool {
        0 <= i < self.routes[method][keys].len()
    }

    /// The index of the leaf at place `i` under the pattern with the keys
    /// `keys` among the routes of `method`.
    pub open spec fn index_at(self, method: RequestMethod, keys: Seq<SegmentKey>, i: int) -> usize {
        self.routes[method][keys][i].index
    }

    /// No index is used twice: two leaves of the routes with the same
    /// index are one leaf, and no leaf of the routes has the index of a
    /// handler without a pattern.
    pub open spec fn distinct_indices(self) -> bool {
        &&& forall|
            m1: RequestMethod,
            k1: Seq<SegmentKey>,
            i1: int,
            m2: RequestMethod,
            k2: Seq<SegmentKey>,
            i2: int,
        |
            self.holds(m1, k1, i1) && self.holds(m2, k2, i2) && #[trigger] self.index_at(
                m1,
                k1,
                i1,
            ) == #[trigger] self.index_at(m2, k2, i2) ==> m1 == m2 && k1 == k2 && i1 == i2
        &&& forall|m: RequestMethod, k: Seq<SegmentKey>, i: int, j: int|
            self.holds(m, k, i) && 0 <= j < self.middleware.len() ==> #[trigger] self.index_at(
                m,
                k,
                i,
            ) != (#[trigger] self.middleware[j]).index
    }

    /// The invariant of a registry: every index is less than the counter
    /// and none is used twice, every method has a store and every store a
    /// list for each pattern, and the handlers without a pattern stand in
    /// the order of their indices.
    pub open spec fn wf(self) -> bool {
        &&& self.counter <= usize::MAX
        &&& self.distinct_indices()
        &&& forall|method: RequestMethod| self.routes.dom().contains(method)
        &&& forall|method: RequestMethod, keys: Seq<SegmentKey>| #[trigger]
            self.routes[method].dom().contains(keys)
        &&& forall|method: RequestMethod| #[trigger]
            store_below(self.routes[method], self.counter)
        &&& forall|i: int|
            0 <= i < self.middleware.len() ==> (#[trigger] self.middleware[i]).index
                < self.counter
        &&& forall|i: int, j: int|
            0 <= i < j < self.middleware.len() ==> (#[trigger] self.middleware[i]).index < (
            #[trigger] self.middleware[j]).index
    }

    /// The matches of the handlers without a pattern: they match every
    /// path and bind nothing.
    pub open spec fn middleware_matches(self, path: Seq<Seq<char>>) -> Seq<Match<Closure>> {
        Seq::new(self.middleware.len(), |i: int| bind(self.middleware[i], path))
    }

    /// The matches among the routes of the request's own method. Only a
    /// route has the method `RequestMethod::All`; should a request have it,
    /// it has no routes of its own, and the routes for every method are
    /// drawn on once.
    pub open spec fn own_matches(self, method: RequestMethod, path: Seq<Seq<char>>) -> Seq<
        Match<Closure>,
    > {
        if method == RequestMethod::All {
            Seq::empty()
        } else {
            lookup(self.routes[method], path)
        }
    }

    /// The handlers that a request for `path` with the method `method`
    /// calls on, in the order in which they are to run: the matches among
    /// the routes of the method, among the routes of every method, and the
    /// handlers without a pattern, merged by their indices.
    pub open spec fn dispatch_order(self, method: RequestMethod, path: Seq<Seq<char>>) -> Seq<
        Match<Closure>,
    > {
        merged(
            self.own_matches(method, path),
            lookup(self.routes[RequestMethod::All], path),
            self.middleware_matches(path),
            0,
            0,
            0,
        )
    }
}

/// The patterns of one method.
struct MethodPaths {
    method: RequestMethod,
    node: PathNode<Closure>,
}

/// One trie for each method that has a route.
pub struct Paths {
    entries: Vec<MethodPaths>,
}

impl View for Paths {
    type V = Map<RequestMethod, Store<Closure>>;

    /// What is stored for each method; a method without a trie has the
    /// store without leaves. Which methods have a trie is what `methods`
    /// says.
    closed spec fn view(&self) -> Map<RequestMethod, Store<Closure>> {
        Map::total(|method: RequestMethod| self.store(method))
    }
}

impl Paths {
    /// Whether there is a trie for `method`.
    spec fn has(self, method: RequestMethod) -> bool {
        exists|i: int|
            0 <= i < self.entries@.len() && (#[trigger] self.entries@[i]).method == method
    }

    /// The position of the trie for `method`.
    spec fn index_of(self, method: RequestMethod) -> int {
        choose|i: int|
            0 <= i < self.entries@.len() && (#[trigger] self.entries@[i]).method == method
    }

    /// What is stored for `method`.
    spec fn store(self, method: RequestMethod) -> Store<Closure> {
        if self.has(method) {
            self.entries@[self.index_of(method)].node@
        } else {
            empty_store()
        }
    }

    /// The methods of the entries, in their order.
    spec fn listed(self) -> Seq<RequestMethod> {
        Seq::new(self.entries@.len(), |i: int| self.entries@[i].method)
    }

    /// The invariant: no method has two tries, and each trie is well
    /// formed.
    pub closed spec fn wf(self) -> bool {
        &&& forall|i: int, j: int|
            0 <= i < j < self.entries@.len() ==> (#[trigger] self.entries@[i]).method != (
            #[trigger] self.entries@[j]).method
        &&& forall|i: int| 0 <= i < self.entries@.len() ==> (#[trigger] self.entries@[i]).node.wf()
    }

    /// The methods that have a trie.
    pub closed spec fn methods(self) -> Set<RequestMethod> {
        self.listed().to_set()
    }

    /// The view gives every method a store, and the store has a list of
    /// leaves for every pattern.
    pub proof fn lemma_view_total(self)
        ensures
            forall|method: RequestMethod| self@.dom().contains(method),
            forall|method: RequestMethod, keys: Seq<SegmentKey>| #[trigger]
                self@[method].dom().contains(keys),
    {
        assert forall|method: RequestMethod, keys: Seq<SegmentKey>| #[trigger]
            self@[method].dom().contains(keys) by {
            self.lemma_store_total(method);
        }
    }

    /// With one trie for each method, the trie of a method is the one entry
    /// that has the method.
    proof fn lemma_index_of(self, i: int)
        requires
            self.wf(),
            0 <= i < self.entries@.len(),
        ensures
            self.has(self.entries@[i].method),
            self.index_of(self.entries@[i].method) == i,
            self.store(self.entries@[i].method) == self.entries@[i].node@,
    {
        let method = self.entries@[i].method;
        let j = self.index_of(method);
    }

    /// No trie.
    pub fn new() -> (paths: Paths)
        ensures
            paths.wf(),
            paths@ == Registry::empty().routes,
            paths.methods() == Set::<RequestMethod>::empty(),
    {
        let paths = Paths { entries: Vec::new() };
        paths
    }

    /// How many methods have a trie.
    pub fn len(&self) -> (n: usize)
        requires
            self.wf(),
        ensures
            n == self.methods().len(),
    {
        proof {
            let listed = self.listed();
            listed.unique_seq_to_set();
        }
        self.entries.len()
    }

    /// The position of the trie for `method`, if there is one.
    fn position(&self, method: RequestMethod) -> (r: Option<usize>)
        requires
            self.wf(),
        ensures
            match r {
                Some(i) => i < self.entries@.len() && self.entries@[i as int].method == method
                    && self.has(method) && self.index_of(method) == i,
                None => !self.has(method),
            },
    {
        let mut i: usize = 0;
        while i < self.entries.len()
            invariant
                self.wf(),
                i <= self.entries@.len(),
                forall|j: int| 0 <= j < i ==> (#[trigger] self.entries@[j]).method != method,
            decreases self.entries@.len() - i,
        {
            if self.entries[i].method == method {
                proof {
                    self.lemma_index_of(i as int);
                }
                return Some(i);
            }
            i += 1;
        }
        None
    }

    /// The trie of `method`, if a route was registered for it.
    pub fn get(&self, method: &RequestMethod) -> (r: Option<&PathNode<Closure>>)
        requires
            self.wf(),
        ensures
            match r {
                Some(node) => self.methods().contains(*method) && node.wf() && node@
                    == self@[*method],
                None => !self.methods().contains(*method) && self@[*method] == empty_store::<
                    Closure,
                >(),
            },
    {
        match self.position(*method) {
            Some(i) => {
                proof {
                    self.lemma_index_of(i as int);
                    assert(self.listed()[i as int] == *method);
                }
                Some(&self.entries[i].node)
            },
            None => {
                None
            },
        }
    }

    /// What is held after the trie of one method was replaced.
    proof fn lemma_entry_replaced(self, after: Self, i: int)
        requires
            self.wf(),
            0 <= i < self.entries@.len(),
            after.entries@.len() == self.entries@.len(),
            after.entries@[i].method == self.entries@[i].method,
            after.entries@[i].node.wf(),
            forall|j: int|
                0 <= j < self.entries@.len() && j != i ==> after.entries@[j] == self.entries@[j],
        ensures
            after.wf(),
            after@ == self@.insert(self.entries@[i].method, after.entries@[i].node@),
            after.methods() == self.methods(),
    {
        assert forall|j: int| 0 <= j < self.entries@.len() implies (
        #[trigger] after.entries@[j]).method == self.entries@[j].method by {}
        assert(after.wf()) by {
            assert forall|a: int, b: int| 0 <= a < b < after.entries@.len() implies (
            #[trigger] after.entries@[a]).method != (#[trigger] after.entries@[b]).method by {
                assert(self.entries@[a].method != self.entries@[b].method);
            }
            assert forall|j: int| 0 <= j < after.entries@.len() implies (
            #[trigger] after.entries@[j]).node.wf() by {
                if j != i {
                    assert(after.entries@[j] == self.entries@[j]);
                }
            }
        }
        assert(after.listed() == self.listed());
        let changed = self.entries@[i].method;
        assert forall|method: RequestMethod| #[trigger]
            after.store(method) == (if method == changed {
                after.entries@[i].node@
            } else {
                self.store(method)
            }) by {
            if method == changed {
                after.lemma_index_of(i);
            } else if self.has(method) {
                let j = self.index_of(method);
                assert(after.entries@[j].method == method);
                after.lemma_index_of(j);
                self.lemma_index_of(j);
            } else if after.has(method) {
                let j = after.index_of(method);
                assert(self.entries@[j].method == method);
                assert(false);
            }
        }
        assert(after@ =~= self@.insert(changed, after.entries@[i].node@));
    }

    /// What is held after a method got its trie.
    proof fn lemma_entry_added(self, after: Self)
        requires
            self.wf(),
            after.entries@.len() == self.entries@.len() + 1,
            !self.has(after.entries@.last().method),
            after.entries@.last().node.wf(),
            forall|j: int| 0 <= j < self.entries@.len() ==> after.entries@[j] == self.entries@[j],
        ensures
            after.wf(),
            after@ == self@.insert(after.entries@.last().method, after.entries@.last().node@),
            after.methods() == self.methods().insert(after.entries@.last().method),
    {
        let n = self.entries@.len() as int;
        let added = after.entries@[n].method;
        assert(after.listed() == self.listed().push(added));
        assert(after.methods() =~= self.methods().insert(added)) by {
            assert forall|method: RequestMethod|
                after.listed().contains(method) <==> (self.listed().contains(method) || method
                    == added) by {
                if self.listed().contains(method) {
                    let j = choose|j: int|
                        0 <= j < self.listed().len() && self.listed()[j] == method;
                    assert(after.listed()[j] == method);
                }
                if method == added {
                    assert(after.listed()[n] == method);
                }
            }
        }
    }

    /// Registers `closure` as number `index` for `method`, under the
    /// pattern that `path` stands for. A method without a trie gets one.
    pub fn insert(&mut self, method: RequestMethod, path: &PathBuf, closure: Closure, index: usize)
        requires
            old(self).wf(),
        ensures
            final(self).wf(),
            final(self)@ == old(self)@.insert(
                method,
                old(self)@[method].insert(
                    keys_of(path@),
                    old(self)@[method][keys_of(path@)].push(leaf_of(path@, closure, index)),
                ),
            ),
            final(self).methods() == old(self).methods().insert(method),
    {
        let ghost before = *self;
        match self.position(method) {
            Some(i) => {
                proof {
                    before.lemma_index_of(i as int);
                }
                self.entries[i].node.insert(path, closure, index);
                proof {
                    before.lemma_entry_replaced(*self, i as int);
                    assert(before.listed()[i as int] == method);
                }
            },
            None => {
                let mut node = PathNode::new();
                node.insert(path, closure, index);
                self.entries.push(MethodPaths { method, node });
                proof {
                    before.lemma_entry_added(*self);
                }
            },
        }
    }

    /// What the first `count` tries of the entries store for `method`.
    spec fn partial(self, count: int, method: RequestMethod) -> Store<Closure> {
        if exists|j: int|
            0 <= j < count && j < self.entries@.len() && (#[trigger] self.entries@[j]).method
                == method {
            self.store(method)
        } else {
            empty_store()
        }
    }

    /// The methods of the first `count` entries.
    spec fn listed_before(self, count: int) -> Set<RequestMethod> {
        self.listed().take(count).to_set()
    }

    /// Takes over every route of `other`, each index moved `shift` places
    /// on. Under each pattern of each method the leaves of `other` come
    /// behind those that were held already, in their order.
    pub fn extend(&mut self, other: Paths, shift: usize)
        requires
            old(self).wf(),
            other.wf(),
            forall|method: RequestMethod| #[trigger] shiftable(other@[method], shift),
        ensures
            final(self).wf(),
            final(self)@ == Map::total(
                |method: RequestMethod| joined(old(self)@[method], other@[method], shift),
            ),
            final(self).methods() == old(self).methods().union(other.methods()),
    {
        let ghost before = *self;
        let ghost whole = other;
        let Paths { entries } = other;
        proof {
            assert forall|method: RequestMethod| #[trigger]
                self@[method] == joined(before@[method], whole.partial(0, method), shift) by {
                before.lemma_store_total(method);
            }
        }
        for entry in it: entries
            invariant
                it.seq() == whole.entries@,
                whole.wf(),
                before.wf(),
                forall|method: RequestMethod| #[trigger] shiftable(whole@[method], shift),
                self.wf(),
                forall|method: RequestMethod| #[trigger]
                    self@[method] == joined(
                        before@[method],
                        whole.partial(it.index() as int, method),
                        shift,
                    ),
                self.methods() == before.methods().union(whole.listed_before(it.index() as int)),
        {
            let ghost k = it.index() as int;
            let ghost mid = *self;
            let MethodPaths { method, node } = entry;
            proof {
                whole.lemma_index_of(k);
                assert(node@ == whole@[method]);
                before.lemma_store_total(method);
                assert(mid@[method] == before@[method]);
            }
            match self.position(method) {
                Some(i) => {
                    proof {
                        mid.lemma_index_of(i as int);
                    }
                    self.entries[i].node.extend(node, shift);
                    proof {
                        mid.lemma_entry_replaced(*self, i as int);
                        assert(mid.listed()[i as int] == method);
                    }
                },
                None => {
                    let mut fresh = PathNode::new();
                    fresh.extend(node, shift);
                    self.entries.push(MethodPaths { method, node: fresh });
                    proof {
                        mid.lemma_entry_added(*self);
                    }
                },
            }
            proof {
                assert(whole.listed().take(k + 1) == whole.listed().take(k).push(method));
                assert(whole.listed_before(k + 1) =~= whole.listed_before(k).insert(method)) by {
                    let shorter = whole.listed().take(k);
                    let longer = shorter.push(method);
                    assert forall|m: RequestMethod|
                        longer.contains(m) <==> (shorter.contains(m) || m == method) by {
                        if m == method {
                            assert(longer[k] == m);
                        }
                    }
                }
            }
        }
        proof {
            let n = whole.entries@.len() as int;
            assert(whole.listed().take(n) == whole.listed());
        }
    }

    /// The store of any method has a list of leaves for every pattern.
    proof fn lemma_store_total(self, method: RequestMethod)
        ensures
            forall|keys: Seq<SegmentKey>| self@[method].dom().contains(keys),
    {
        if self.has(method) {
            self.entries@[self.index_of(method)].node.lemma_view_total();
        }
    }
}

} // verus!
