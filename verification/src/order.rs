//! The order in which handlers run: the facts about registration, about
//! taking over a registry, and about the end of a chain.

use vstd::prelude::*;
use crate::dispatch::{
    lemma_merged_ascending, lemma_merged_grown, lemma_merged_permutes, merged, rest_below,
    Source,
};
use crate::matching::{
    apart, distinct_in, lemma_concat_distinct, lemma_lookup_below, lemma_lookup_distinct,
    lemma_lookup_empty, lemma_lookup_exact, lemma_lookup_pushed, lemma_lookup_single,
    lemma_permutation_distinct, lemma_sort_by_index, single, store_distinct,
};
use crate::registry::{lemma_store_below_push, store_below, Registry};
use crate::request::{Request, RequestMethod};
use crate::responder::Response;
use crate::router::{chain, served, Closure, Flow};
use crate::trie::{
    ascending, bind, candidates, empty_store, keys_match, keys_of, leaf_of, lookup, Leaf, Match,
    SegmentKey,
};

verus! {

/// One registration, as a mathematical value.
pub enum Registration {
    /// A handler for the requests of one method, or of every method, whose
    /// path matches a pattern.
    Route { method: RequestMethod, path: Seq<Seq<char>>, closure: Closure },
    /// A handler for every request.
    Middleware { closure: Closure },
}

impl Registry {
    /// The registry after one registration.
    pub open spec fn with(self, registration: Registration) -> Registry {
        match registration {
            Registration::Route { method, path, closure } => self.with_route(
                method,
                path,
                closure,
            ),
            Registration::Middleware { closure } => self.with_middleware(closure),
        }
    }

    /// The registry after the registrations of `list`, first to last.
    pub open spec fn with_all(self, list: Seq<Registration>) -> Registry
        decreases list.len(),
    {
        if list.len() == 0 {
            self
        } else {
            self.with_all(list.drop_last()).with(list.last())
        }
    }
}

/// A registration leaves a well-formed registry well formed, and gives the
/// handler an index that is greater than the index of every handler that
/// was registered before: the counter, which was greater than them all.
pub proof fn lemma_with_wf(registry: Registry, registration: Registration)
    requires
        registry.wf(),
        registry.counter < usize::MAX,
    ensures
        registry.with(registration).wf(),
        registry.with(registration).counter == registry.counter + 1,
        forall|method: RequestMethod| #[trigger]
            store_below(registry.routes[method], registry.counter),
        forall|i: int|
            0 <= i < registry.middleware.len() ==> (#[trigger] registry.middleware[i]).index
                < registry.counter,
{
    let after = registry.with(registration);
    match registration {
        Registration::Route { method, path, closure } => {
            let keys = keys_of(path);
            let leaf = leaf_of(path, closure, registry.counter as usize);
            let n = registry.routes[method][keys].len() as int;
            lemma_store_below_push(registry.routes[method], keys, leaf, registry.counter);
            assert forall|m: RequestMethod| #[trigger]
                store_below(after.routes[m], after.counter) by {
                if m != method {
                    assert(store_below(registry.routes[m], registry.counter));
                }
            }
            assert forall|m: RequestMethod, k: Seq<SegmentKey>, i: int|
                after.holds(m, k, i) implies (m == method && k == keys && i == n && (
            #[trigger] after.index_at(m, k, i)) == registry.counter) || (registry.holds(m, k, i)
                && after.index_at(m, k, i) == registry.index_at(m, k, i) && registry.index_at(
                m,
                k,
                i,
            ) < registry.counter) by {
                assert(store_below(registry.routes[m], registry.counter));
                if m == method && k == keys {
                    if i < n {
                        assert(after.routes[m][k][i] == registry.routes[m][k][i]);
                    }
                } else if m == method {
                    assert(after.routes[m][k] == registry.routes[m][k]);
                } else {
                    assert(after.routes[m] == registry.routes[m]);
                }
            }
            assert(after.distinct_indices()) by {
                assert forall|
                    m1: RequestMethod,
                    k1: Seq<SegmentKey>,
                    i1: int,
                    m2: RequestMethod,
                    k2: Seq<SegmentKey>,
                    i2: int,
                |
                    after.holds(m1, k1, i1) && after.holds(m2, k2, i2) && #[trigger] after.index_at(
                        m1,
                        k1,
                        i1,
                    ) == #[trigger] after.index_at(m2, k2, i2) implies m1 == m2 && k1 == k2 && i1
                    == i2 by {
                    if registry.holds(m1, k1, i1) && registry.holds(m2, k2, i2) && !(m1 == method
                        && k1 == keys && i1 == n) && !(m2 == method && k2 == keys && i2 == n) {
                        assert(registry.index_at(m1, k1, i1) == registry.index_at(m2, k2, i2));
                    }
                }
                assert forall|m: RequestMethod, k: Seq<SegmentKey>, i: int, j: int|
                    after.holds(m, k, i) && 0 <= j < after.middleware.len() implies (
                #[trigger] after.index_at(m, k, i)) != (#[trigger] after.middleware[j]).index by {
                    if !(m == method && k == keys && i == n) {
                        assert(registry.index_at(m, k, i) != registry.middleware[j].index);
                    }
                }
            }
        },
        Registration::Middleware { closure } => {
            assert forall|m: RequestMethod| #[trigger]
                store_below(after.routes[m], after.counter) by {
                assert(store_below(registry.routes[m], registry.counter));
            }
            assert forall|i: int, j: int| 0 <= i < j < after.middleware.len() implies (
            #[trigger] after.middleware[i]).index < (#[trigger] after.middleware[j]).index by {
                assert(after.middleware[i] == registry.middleware[i]);
                if j < registry.middleware.len() {
                    assert(after.middleware[j] == registry.middleware[j]);
                }
            }
            assert forall|i: int| 0 <= i < after.middleware.len() implies (
            #[trigger] after.middleware[i]).index < after.counter by {
                if i < registry.middleware.len() {
                    assert(after.middleware[i] == registry.middleware[i]);
                }
            }
            assert(after.distinct_indices()) by {
                assert forall|
                    m1: RequestMethod,
                    k1: Seq<SegmentKey>,
                    i1: int,
                    m2: RequestMethod,
                    k2: Seq<SegmentKey>,
                    i2: int,
                |
                    after.holds(m1, k1, i1) && after.holds(m2, k2, i2) && #[trigger] after.index_at(
                        m1,
                        k1,
                        i1,
                    ) == #[trigger] after.index_at(m2, k2, i2) implies m1 == m2 && k1 == k2 && i1
                    == i2 by {
                    assert(registry.index_at(m1, k1, i1) == registry.index_at(m2, k2, i2));
                }
                assert forall|m: RequestMethod, k: Seq<SegmentKey>, i: int, j: int|
                    after.holds(m, k, i) && 0 <= j < after.middleware.len() implies (
                #[trigger] after.index_at(m, k, i)) != (#[trigger] after.middleware[j]).index by {
                    assert(store_below(registry.routes[m], registry.counter));
                    assert(registry.index_at(m, k, i) < registry.counter);
                    if j < registry.middleware.len() {
                        assert(after.middleware[j] == registry.middleware[j]);
                        assert(registry.index_at(m, k, i) != registry.middleware[j].index);
                    }
                }
            }
        },
    }
}

/// The handlers of a request run in the order of their registration: the
/// indices in the order of dispatch ascend, so of two handlers the one
/// with the lesser index stands first; and the order holds each match of
/// the request's own method, of every method and of the handlers without
/// a pattern as often as those three hold it together.
pub proof fn lemma_dispatch_order(registry: Registry, method: RequestMethod, path: Seq<Seq<char>>)
    requires
        registry.wf(),
    ensures
        ascending(registry.dispatch_order(method, path)),
        forall|s: int, t: int|
            0 <= s < registry.dispatch_order(method, path).len() && 0 <= t
                < registry.dispatch_order(method, path).len() && registry.dispatch_order(
                method,
                path,
            )[s].index < registry.dispatch_order(method, path)[t].index ==> s < t,
        registry.dispatch_order(method, path).to_multiset() == registry.own_matches(
            method,
            path,
        ).to_multiset().add(lookup(registry.routes[RequestMethod::All], path).to_multiset()).add(
            registry.middleware_matches(path).to_multiset(),
        ),
{
    let a = registry.own_matches(method, path);
    let b = lookup(registry.routes[RequestMethod::All], path);
    let c = registry.middleware_matches(path);
    lemma_sort_by_index(candidates(registry.routes[method], path));
    lemma_sort_by_index(candidates(registry.routes[RequestMethod::All], path));
    assert(ascending(c)) by {
        assert forall|p: int, q: int| 0 <= p < q < c.len() implies c[p].index <= c[q].index by {
            assert(registry.middleware[p].index < registry.middleware[q].index);
        }
    }
    lemma_merged_ascending(a, b, c, 0, 0, 0, 0);
    lemma_merged_permutes(a, b, c, 0, 0, 0);
    assert(a.skip(0) == a);
    assert(b.skip(0) == b);
    assert(c.skip(0) == c);
    let order = registry.dispatch_order(method, path);
    assert forall|s: int, t: int|
        0 <= s < order.len() && 0 <= t < order.len() && order[s].index
            < order[t].index implies s < t by {
        if t < s {
            assert(order[t].index <= order[s].index);
        }
    }
}

/// What is found among the routes of two different methods, and among the
/// routes of a method and the handlers without a pattern, has no index in
/// common.
proof fn lemma_sources_apart(registry: Registry, method: RequestMethod, path: Seq<Seq<char>>)
    requires
        registry.wf(),
    ensures
        store_distinct(registry.routes[method]),
        apart(lookup(registry.routes[method], path), registry.middleware_matches(path)),
        method != RequestMethod::All ==> apart(
            lookup(registry.routes[method], path),
            lookup(registry.routes[RequestMethod::All], path),
        ),
{
    let store = registry.routes[method];
    let any = registry.routes[RequestMethod::All];
    let a = lookup(store, path);
    let b = lookup(any, path);
    let c = registry.middleware_matches(path);
    assert(store_distinct(store)) by {
        assert forall|k1: Seq<SegmentKey>, i1: int, k2: Seq<SegmentKey>, i2: int|
            0 <= i1 < store[k1].len() && 0 <= i2 < store[k2].len() && (
            #[trigger] store[k1][i1]).index == (#[trigger] store[k2][i2]).index implies k1 == k2
            && i1 == i2 by {
            assert(registry.index_at(method, k1, i1) == registry.index_at(method, k2, i2));
        }
    }
    lemma_lookup_exact(store, path);
    lemma_lookup_exact(any, path);
    assert forall|p: int, q: int| 0 <= p < a.len() && 0 <= q < c.len() implies (
    #[trigger] a[p]).index != (#[trigger] c[q]).index by {
        assert(a.contains(a[p]));
        let (keys, i) = choose|keys: Seq<SegmentKey>, i: int|
            keys_match(keys, path) && 0 <= i < store[keys].len() && a[p] == bind(
                #[trigger] store[keys][i],
                path,
            );
        assert(registry.index_at(method, keys, i) != registry.middleware[q].index);
    }
    if method != RequestMethod::All {
        assert forall|p: int, q: int| 0 <= p < a.len() && 0 <= q < b.len() implies (
        #[trigger] a[p]).index != (#[trigger] b[q]).index by {
            assert(a.contains(a[p]));
            assert(b.contains(b[q]));
            let (k1, i1) = choose|keys: Seq<SegmentKey>, i: int|
                keys_match(keys, path) && 0 <= i < store[keys].len() && a[p] == bind(
                    #[trigger] store[keys][i],
                    path,
                );
            let (k2, i2) = choose|keys: Seq<SegmentKey>, i: int|
                keys_match(keys, path) && 0 <= i < any[keys].len() && b[q] == bind(
                    #[trigger] any[keys][i],
                    path,
                );
            if registry.index_at(method, k1, i1) == registry.index_at(
                RequestMethod::All,
                k2,
                i2,
            ) {
                assert(false);
            }
        }
    }
}

/// In a well-formed registry no index is used twice, so the order of
/// dispatch ascends strictly: each handler that serves the request is
/// called on once, and a handler that was registered before another one
/// stands before it.
pub proof fn lemma_dispatch_strict(registry: Registry, method: RequestMethod, path: Seq<Seq<char>>)
    requires
        registry.wf(),
    ensures
        distinct_in(registry.dispatch_order(method, path)),
        forall|s: int, t: int|
            0 <= s < t < registry.dispatch_order(method, path).len()
                ==> registry.dispatch_order(method, path)[s].index < registry.dispatch_order(
                method,
                path,
            )[t].index,
{
    broadcast use vstd::multiset::group_multiset_axioms;

    let a = registry.own_matches(method, path);
    let b = lookup(registry.routes[RequestMethod::All], path);
    let c = registry.middleware_matches(path);
    let order = registry.dispatch_order(method, path);
    lemma_sources_apart(registry, method, path);
    lemma_sources_apart(registry, RequestMethod::All, path);
    lemma_lookup_distinct(registry.routes[method], path);
    lemma_lookup_distinct(registry.routes[RequestMethod::All], path);
    assert(distinct_in(c)) by {
        assert forall|p: int, q: int| 0 <= p < q < c.len() implies (#[trigger] c[p]).index != (
        #[trigger] c[q]).index by {
            assert(registry.middleware[p].index < registry.middleware[q].index);
        }
    }
    assert(distinct_in(a) && apart(a, b) && apart(a, c));
    lemma_concat_distinct(a, b);
    assert(apart(a + b, c)) by {
        assert forall|p: int, q: int| 0 <= p < (a + b).len() && 0 <= q < c.len() implies (
        #[trigger] (a + b)[p]).index != (#[trigger] c[q]).index by {
            if p < a.len() {
                assert((a + b)[p] == a[p]);
            } else {
                assert((a + b)[p] == b[p - a.len()]);
            }
        }
    }
    lemma_concat_distinct(a + b, c);
    lemma_dispatch_order(registry, method, path);
    vstd::seq_lib::lemma_multiset_commutative(a, b);
    vstd::seq_lib::lemma_multiset_commutative(a + b, c);
    lemma_permutation_distinct(a + b + c, order);
    assert forall|s: int, t: int| 0 <= s < t < order.len() implies order[s].index
        < order[t].index by {
        assert(order[s].index <= order[t].index);
        assert(order[s].index != order[t].index);
    }
}

/// A registry built by registrations counts them.
pub proof fn lemma_with_all_counter(registry: Registry, list: Seq<Registration>)
    ensures
        registry.with_all(list).counter == registry.counter + list.len(),
    decreases list.len(),
{
    if list.len() > 0 {
        lemma_with_all_counter(registry, list.drop_last());
    }
}

/// Appending a registry and then registering one more handler gives what
/// registering the handler with the appended registry first, and then
/// appending, gives.
proof fn lemma_append_then_register(
    first: Registry,
    second: Registry,
    registration: Registration,
)
    requires
        first.wf(),
        forall|method: RequestMethod| second.routes.dom().contains(method),
        forall|method: RequestMethod, keys: Seq<SegmentKey>| #[trigger]
            second.routes[method].dom().contains(keys),
        first.counter + second.counter < usize::MAX,
    ensures
        first.appended(second.with(registration)) == first.appended(second).with(registration),
{
    let left = first.appended(second.with(registration));
    let right = first.appended(second).with(registration);
    match registration {
        Registration::Route { method, path, closure } => {
            assert(left.middleware == right.middleware);
            assert forall|m: RequestMethod| #[trigger] left.routes[m] == right.routes[m] by {
                assert(left.routes[m] =~~= right.routes[m]);
            }
            assert(left.routes =~~= right.routes);
        },
        Registration::Middleware { closure } => {
            assert(left.middleware =~= right.middleware);
            assert(left.routes =~~= right.routes);
        },
    }
}

/// A registry built by registrations has a store for every method and a
/// list of leaves for every pattern, if the registry it was built from has.
proof fn lemma_with_all_total(registry: Registry, list: Seq<Registration>)
    requires
        forall|method: RequestMethod| registry.routes.dom().contains(method),
        forall|method: RequestMethod, keys: Seq<SegmentKey>| #[trigger]
            registry.routes[method].dom().contains(keys),
    ensures
        forall|method: RequestMethod| registry.with_all(list).routes.dom().contains(method),
        forall|method: RequestMethod, keys: Seq<SegmentKey>| #[trigger]
            registry.with_all(list).routes[method].dom().contains(keys),
    decreases list.len(),
{
    if list.len() > 0 {
        lemma_with_all_total(registry, list.drop_last());
        let before = registry.with_all(list.drop_last());
        let after = before.with(list.last());
        assert forall|method: RequestMethod| after.routes.dom().contains(method) by {
            assert(before.routes.dom().contains(method));
        }
        assert forall|method: RequestMethod, keys: Seq<SegmentKey>| #[trigger]
            after.routes[method].dom().contains(keys) by {
            assert(before.routes[method].dom().contains(keys));
        }
    }
}

/// Appending a registry that was built by registrations is making the same
/// registrations, in their order, with the registry that took it over. So
/// the requests are dispatched alike.
pub proof fn lemma_append_is_registration(first: Registry, list: Seq<Registration>)
    requires
        first.wf(),
        first.counter + list.len() <= usize::MAX,
    ensures
        first.appended(Registry::empty().with_all(list)) == first.with_all(list),
        forall|method: RequestMethod, path: Seq<Seq<char>>|
            first.appended(Registry::empty().with_all(list)).dispatch_order(method, path)
                == first.with_all(list).dispatch_order(method, path),
    decreases list.len(),
{
    let none = Registry::empty();
    if list.len() == 0 {
        let both = first.appended(none);
        assert forall|method: RequestMethod| #[trigger]
            both.routes[method] == first.routes[method] by {}
    } else {
        let shorter = list.drop_last();
        lemma_append_is_registration(first, shorter);
        lemma_with_all_counter(none, shorter);
        lemma_with_all_total(none, shorter);
        lemma_append_then_register(first, none.with_all(shorter), list.last());
    }
}

/// The matches of the registrations that serve a request, in the order of
/// registration, each with its place in the list as its index. A route
/// serves the requests of its method, or of every method if it was
/// registered for every method, whose path its pattern matches; a handler
/// without a pattern serves every request.
pub open spec fn serving(
    list: Seq<Registration>,
    method: RequestMethod,
    path: Seq<Seq<char>>,
) -> Seq<Match<Closure>>
    decreases list.len(),
{
    if list.len() == 0 {
        Seq::empty()
    } else {
        let before = serving(list.drop_last(), method, path);
        let index = (list.len() - 1) as usize;
        match list.last() {
            Registration::Route { method: own, path: pattern, closure } => if (own == method
                || own == RequestMethod::All) && keys_match(keys_of(pattern), path) {
                before.push(bind(leaf_of(pattern, closure, index), path))
            } else {
                before
            },
            Registration::Middleware { closure } => before.push(
                bind(Leaf { data: closure, index, vars: Seq::empty() }, path),
            ),
        }
    }
}

/// A registry built by registrations is well formed, as long as the
/// counter can count them.
pub proof fn lemma_with_all_wf(list: Seq<Registration>)
    requires
        list.len() <= usize::MAX,
    ensures
        Registry::empty().with_all(list).wf(),
        Registry::empty().with_all(list).counter == list.len(),
    decreases list.len(),
{
    if list.len() > 0 {
        lemma_with_all_wf(list.drop_last());
        lemma_with_wf(Registry::empty().with_all(list.drop_last()), list.last());
    }
}

/// The order of dispatch is the list of registrations: a registry built by
/// registrations calls, for a request, on the handlers whose registrations
/// serve the request, each once, in the order in which they were
/// registered, whichever of the tries and the list of handlers without a
/// pattern holds them.
pub proof fn lemma_order_is_registrations(
    list: Seq<Registration>,
    method: RequestMethod,
    path: Seq<Seq<char>>,
)
    requires
        list.len() <= usize::MAX,
    ensures
        Registry::empty().with_all(list).dispatch_order(method, path) == serving(
            list,
            method,
            path,
        ),
    decreases list.len(),
{
    let nothing = Seq::<Match<Closure>>::empty();
    if list.len() == 0 {
        lemma_lookup_empty::<Closure>(path);
        let registry = Registry::empty();
        assert(registry.middleware_matches(path) =~= nothing);
        assert(merged(nothing, nothing, nothing, 0, 0, 0) == nothing);
    } else {
        let shorter = list.drop_last();
        let registry = Registry::empty().with_all(shorter);
        let after = registry.with(list.last());
        lemma_order_is_registrations(shorter, method, path);
        lemma_with_all_wf(shorter);
        let bound = registry.counter as usize;
        let own = registry.own_matches(method, path);
        let any = lookup(registry.routes[RequestMethod::All], path);
        let always = registry.middleware_matches(path);
        assert(rest_below(own, 0, bound) && rest_below(any, 0, bound)) by {
            assert(store_below(registry.routes[method], registry.counter));
            assert(store_below(registry.routes[RequestMethod::All], registry.counter));
            lemma_lookup_below(registry.routes[method], path, registry.counter);
            lemma_lookup_below(registry.routes[RequestMethod::All], path, registry.counter);
        }
        assert(rest_below(always, 0, bound)) by {
            assert forall|t: int| 0 <= t < always.len() implies (#[trigger] always[t]).index
                < bound by {
                assert(registry.middleware[t].index < registry.counter);
            }
        }
        match list.last() {
            Registration::Route { method: own_method, path: pattern, closure } => {
                let keys = keys_of(pattern);
                let leaf = leaf_of(pattern, closure, bound);
                let found = bind(leaf, path);
                let store = registry.routes[own_method];
                assert(store_below(store, registry.counter));
                assert(store.dom().contains(keys));
                lemma_lookup_pushed(store, keys, leaf, path);
                assert(after.middleware_matches(path) =~= always);
                assert forall|m: RequestMethod| m != own_method implies #[trigger] after.routes[m]
                    == registry.routes[m] by {}
                if keys_match(keys, path) && own_method == RequestMethod::All {
                    assert(after.own_matches(method, path) == own);
                    lemma_merged_grown(own, any, always, 0, 0, 0, Source::Any, found);
                } else if keys_match(keys, path) && own_method == method {
                    assert(lookup(after.routes[RequestMethod::All], path) == any);
                    lemma_merged_grown(own, any, always, 0, 0, 0, Source::Method, found);
                } else {
                    assert(after.own_matches(method, path) == own);
                    assert(lookup(after.routes[RequestMethod::All], path) == any);
                }
            },
            Registration::Middleware { closure } => {
                let leaf = Leaf { data: closure, index: bound, vars: Seq::empty() };
                let found = bind(leaf, path);
                assert(after.middleware_matches(path) =~= always.push(found));
                lemma_merged_grown(own, any, always, 0, 0, 0, Source::Middleware, found);
            },
        }
    }
}

/// A registry with one route calls on the route's handler exactly for the
/// requests that the route serves: those of its method, or of any method
/// if it was registered for every method, whose path has as many
/// components as the pattern, each literal being the text of its component
/// and each wildcard or variable standing at a component that is not
/// empty. For every other request it calls on no handler.
pub proof fn lemma_one_route(
    method: RequestMethod,
    pattern: Seq<Seq<char>>,
    closure: Closure,
    request_method: RequestMethod,
    path: Seq<Seq<char>>,
)
    ensures
        Registry::empty().with_route(method, pattern, closure).dispatch_order(
            request_method,
            path,
        ) == (if (method == request_method || method == RequestMethod::All) && keys_match(
            keys_of(pattern),
            path,
        ) {
            seq![bind(leaf_of(pattern, closure, 0), path)]
        } else {
            Seq::empty()
        }),
{
    let registry = Registry::empty().with_route(method, pattern, closure);
    let keys = keys_of(pattern);
    let leaf = leaf_of(pattern, closure, 0);
    let found = bind(leaf, path);
    let nothing = Seq::<Match<Closure>>::empty();
    assert(registry.routes[method] =~= single(keys, leaf)) by {
        assert(empty_store::<Closure>()[keys].push(leaf) =~= seq![leaf]);
    }
    lemma_lookup_single(keys, leaf, path);
    lemma_lookup_empty::<Closure>(path);
    let own = registry.own_matches(request_method, path);
    let any = lookup(registry.routes[RequestMethod::All], path);
    let always = registry.middleware_matches(path);
    assert(always =~= nothing);
    assert(merged(nothing, nothing, nothing, 0, 0, 0) == nothing);
    if (method == request_method || method == RequestMethod::All) && keys_match(keys, path) {
        if method == RequestMethod::All {
            assert(own == nothing);
            assert(any == seq![found]);
            assert(merged(own, any, always, 0, 1, 0) == nothing);
            assert(merged(own, any, always, 0, 0, 0) =~= seq![found]);
        } else {
            assert(own == seq![found]);
            assert(any == nothing);
            assert(merged(own, any, always, 1, 0, 0) == nothing);
            assert(merged(own, any, always, 0, 0, 0) =~= seq![found]);
        }
    } else {
        assert(own == nothing);
        assert(any == nothing);
    }
}

/// How many handlers ran: none where there is none to run, and the
/// response then stays as it was; at least the first where there is one to
/// run and the response had no body; all that are to run where the
/// response never got a body and no handler returned `Flow::Stop`.
pub proof fn lemma_served_count(
    order: Seq<Match<Closure>>,
    request: Request,
    before: Response,
    after: Response,
    flows: Seq<Flow>,
    states: Seq<Response>,
)
    requires
        served(order, request, before, after, flows, states),
    ensures
        flows.len() <= order.len(),
        order.len() == 0 ==> flows.len() == 0 && after == before,
        order.len() > 0 && !before.has_body ==> flows.len() >= 1,
        !after.has_body && (flows.len() > 0 ==> flows.last() == Flow::Next) ==> flows.len()
            == order.len(),
{
    reveal(chain);
}

/// What taking over a registry does to the indices. A handler that was
/// held keeps its place and its index, which is less than the counter that
/// was. A handler that is taken over stands behind those that were held
/// under its pattern, in the order that it had among its own, and its
/// index is raised by the counter that was: so it is not less than that
/// counter, and greater than the index of every handler that was held.
pub proof fn lemma_appended_indices(first: Registry, second: Registry)
    requires
        first.wf(),
        second.wf(),
        first.counter + second.counter <= usize::MAX,
    ensures
        forall|method: RequestMethod, keys: Seq<SegmentKey>|
            (#[trigger] first.appended(second).routes[method][keys]).len()
                == first.routes[method][keys].len() + second.routes[method][keys].len(),
        forall|method: RequestMethod, keys: Seq<SegmentKey>, i: int|
            0 <= i < first.routes[method][keys].len() ==> (#[trigger] first.appended(
                second,
            ).routes[method][keys][i]) == first.routes[method][keys][i]
                && first.routes[method][keys][i].index < first.counter,
        forall|method: RequestMethod, keys: Seq<SegmentKey>, i: int|
            first.routes[method][keys].len() <= i < first.appended(
                second,
            ).routes[method][keys].len() ==> ({
                let taken = second.routes[method][keys][i - first.routes[method][keys].len()];
                let moved = #[trigger] first.appended(second).routes[method][keys][i];
                &&& moved.data == taken.data
                &&& moved.vars == taken.vars
                &&& moved.index == taken.index + first.counter
                &&& moved.index >= first.counter
            }),
        first.appended(second).middleware.len() == first.middleware.len()
            + second.middleware.len(),
        forall|i: int|
            0 <= i < first.middleware.len() ==> (#[trigger] first.appended(second).middleware[i])
                == first.middleware[i] && first.middleware[i].index < first.counter,
        forall|i: int|
            first.middleware.len() <= i < first.appended(second).middleware.len() ==> ({
                let taken = second.middleware[i - first.middleware.len()];
                let moved = #[trigger] first.appended(second).middleware[i];
                &&& moved.data == taken.data
                &&& moved.vars == taken.vars
                &&& moved.index == taken.index + first.counter
                &&& moved.index >= first.counter
            }),
{
    let both = first.appended(second);
    let shift = first.counter as usize;
    assert forall|method: RequestMethod, keys: Seq<SegmentKey>, i: int|
        0 <= i < first.routes[method][keys].len() implies (#[trigger] both.routes[method][keys][i])
        == first.routes[method][keys][i] && first.routes[method][keys][i].index
        < first.counter by {
        assert(store_below(first.routes[method], first.counter));
    }
    assert forall|method: RequestMethod, keys: Seq<SegmentKey>, i: int|
        first.routes[method][keys].len() <= i < both.routes[method][keys].len() implies ({
        let taken = second.routes[method][keys][i - first.routes[method][keys].len()];
        let moved = #[trigger] both.routes[method][keys][i];
        &&& moved.data == taken.data
        &&& moved.vars == taken.vars
        &&& moved.index == taken.index + first.counter
        &&& moved.index >= first.counter
    }) by {
        let at = i - first.routes[method][keys].len();
        assert(store_below(second.routes[method], second.counter));
        assert(both.routes[method][keys][i] == second.routes[method][keys][at].shifted(shift));
        assert(second.routes[method][keys][at].index < second.counter);
    }
    assert forall|i: int| first.middleware.len() <= i < both.middleware.len() implies ({
        let taken = second.middleware[i - first.middleware.len()];
        let moved = #[trigger] both.middleware[i];
        &&& moved.data == taken.data
        &&& moved.vars == taken.vars
        &&& moved.index == taken.index + first.counter
        &&& moved.index >= first.counter
    }) by {
        let at = i - first.middleware.len();
        assert(both.middleware[i] == second.middleware[at].shifted(shift));
        assert(second.middleware[at].index < second.counter);
    }
}

/// Once a handler has returned `Flow::Stop`, no further handler runs: in
/// what was served, only the last flow can be `Flow::Stop`.
pub proof fn lemma_stop_is_last(
    order: Seq<Match<Closure>>,
    request: Request,
    before: Response,
    after: Response,
    flows: Seq<Flow>,
    states: Seq<Response>,
    t: int,
)
    requires
        served(order, request, before, after, flows, states),
        0 <= t < flows.len(),
        flows[t] == Flow::Stop,
    ensures
        t == flows.len() - 1,
{
}

/// Once the response has a body, no further handler runs: in what was
/// served, every handler ran on a response without a body, so only the
/// last response can have one; and if the response had a body before,
/// no handler ran and it is the response after.
pub proof fn lemma_body_is_last(
    order: Seq<Match<Closure>>,
    request: Request,
    before: Response,
    after: Response,
    flows: Seq<Flow>,
    states: Seq<Response>,
)
    requires
        served(order, request, before, after, flows, states),
    ensures
        states.len() == flows.len() + 1,
        forall|t: int| 0 <= t < flows.len() ==> !(#[trigger] states[t]).has_body,
        before.has_body ==> flows.len() == 0 && after == before,
{
    reveal(chain);
}

} // verus!
