//! What a lookup finds: the facts about sorting by index and about the
//! patterns that match a path.

use vstd::prelude::*;
use vstd::multiset::Multiset;
use vstd::seq_lib::{to_multiset_contains, to_multiset_insert};
use crate::registry::store_below;
use crate::trie::{
    ascending, bind, candidates, empty_store, insert_all, insert_position, key_matches,
    keys_match, keys_of, leaf_of, lemma_insert_all_concat, lookup, sort_by_index, sorted_insert,
    under, Leaf, Match, SegmentKey, Store,
};

verus! {

/// Where a match goes into a list: every match from there on has a greater
/// index, and the one just before has not.
pub proof fn lemma_insert_position<T>(sorted: Seq<Match<T>>, index: usize)
    ensures
        0 <= insert_position(sorted, index) <= sorted.len(),
        forall|i: int|
            insert_position(sorted, index) <= i < sorted.len() ==> (#[trigger] sorted[i]).index
                > index,
        insert_position(sorted, index) > 0 ==> sorted[insert_position(sorted, index) - 1].index
            <= index,
    decreases sorted.len(),
{
    if sorted.len() > 0 && sorted.last().index > index {
        lemma_insert_position(sorted.drop_last(), index);
        let pos = insert_position(sorted, index);
        assert forall|i: int| pos <= i < sorted.len() implies (#[trigger] sorted[i]).index
            > index by {
            if i < sorted.len() - 1 {
                assert(sorted[i] == sorted.drop_last()[i]);
            }
        }
    }
}

/// A match put into an ascending list at its place leaves the list
/// ascending.
pub proof fn lemma_sorted_insert_ascending<T>(sorted: Seq<Match<T>>, found: Match<T>)
    requires
        ascending(sorted),
    ensures
        ascending(sorted_insert(sorted, found)),
{
    lemma_insert_position(sorted, found.index);
    let pos = insert_position(sorted, found.index);
    let after = sorted_insert(sorted, found);
    assert forall|i: int, j: int| 0 <= i < j < after.len() implies after[i].index
        <= after[j].index by {
        if j < pos {
            assert(after[i] == sorted[i] && after[j] == sorted[j]);
        } else if j == pos {
            assert(after[i] == sorted[i]);
            assert(sorted[i].index <= sorted[pos - 1].index);
        } else if i < pos {
            assert(after[i] == sorted[i] && after[j] == sorted[j - 1]);
            if i < j - 1 {
                assert(sorted[i].index <= sorted[j - 1].index);
            }
        } else if i == pos {
            assert(after[j] == sorted[j - 1]);
        } else {
            assert(after[i] == sorted[i - 1] && after[j] == sorted[j - 1]);
        }
    }
}

/// Matches put one by one into an ascending list leave it ascending, and
/// the list then holds what it held and the matches put in, each as often
/// as before.
pub proof fn lemma_insert_all<T>(sorted: Seq<Match<T>>, items: Seq<Match<T>>)
    ensures
        ascending(sorted) ==> ascending(insert_all(sorted, items)),
        insert_all(sorted, items).to_multiset() == sorted.to_multiset().add(items.to_multiset()),
        insert_all(sorted, items).len() == sorted.len() + items.len(),
    decreases items.len(),
{
    broadcast use vstd::multiset::group_multiset_axioms;
    broadcast use vstd::seq_lib::to_multiset_build;

    if items.len() == 0 {
        assert(items.to_multiset() =~= Multiset::<Match<T>>::empty()) by {
            items.to_multiset_ensures();
        }
    } else {
        let before = insert_all(sorted, items.drop_last());
        lemma_insert_all(sorted, items.drop_last());
        lemma_insert_position(before, items.last().index);
        to_multiset_insert(before, insert_position(before, items.last().index), items.last());
        if ascending(sorted) {
            lemma_sorted_insert_ascending(before, items.last());
        }
        assert(items.drop_last().push(items.last()) == items);
    }
}

/// Sorting by index gives an ascending list that holds each item as often
/// as the list that was sorted.
pub proof fn lemma_sort_by_index<T>(items: Seq<Match<T>>)
    ensures
        ascending(sort_by_index(items)),
        sort_by_index(items).to_multiset() == items.to_multiset(),
        sort_by_index(items).len() == items.len(),
        forall|found: Match<T>| sort_by_index(items).contains(found) <==> items.contains(found),
{
    broadcast use vstd::multiset::group_multiset_axioms;

    let none = Seq::<Match<T>>::empty();
    lemma_insert_all(none, items);
    assert(none.to_multiset() =~= Multiset::<Match<T>>::empty()) by {
        none.to_multiset_ensures();
    }
    assert forall|found: Match<T>| sort_by_index(items).contains(found) <==> items.contains(
        found,
    ) by {
        to_multiset_contains(sort_by_index(items), found);
        to_multiset_contains(items, found);
    }
}

/// The keys in `tail` match the components of `path` from `depth` on, one
/// for one.
pub open spec fn tail_matches(tail: Seq<SegmentKey>, path: Seq<Seq<char>>, depth: int) -> bool {
    &&& tail.len() == path.len() - depth
    &&& forall|i: int| 0 <= i < tail.len() ==> key_matches(#[trigger] tail[i], path[depth + i])
}

/// Every leaf stored under keys that go on from `prefix` with keys that
/// match the rest of the path has its match among those under `prefix`.
pub proof fn lemma_under_holds<T>(
    store: Store<T>,
    prefix: Seq<SegmentKey>,
    tail: Seq<SegmentKey>,
    path: Seq<Seq<char>>,
    depth: int,
    i: int,
)
    requires
        0 <= depth <= path.len(),
        tail_matches(tail, path, depth),
        0 <= i < store[prefix + tail].len(),
    ensures
        under(store, prefix, path, depth).contains(bind(store[prefix + tail][i], path)),
    decreases path.len() - depth,
{
    let wanted = bind(store[prefix + tail][i], path);
    if depth >= path.len() {
        assert(under(store, prefix, path, depth)[i] == wanted);
    } else {
        let text = path[depth];
        let key = tail[0];
        let rest = tail.drop_first();
        assert(prefix.push(key) + rest == prefix + tail);
        lemma_under_holds(store, prefix.push(key), rest, path, depth + 1, i);
        let literal = under(store, prefix.push(SegmentKey::Static(text)), path, depth + 1);
        let wildcard = under(store, prefix.push(SegmentKey::Wildcard), path, depth + 1);
        let variable = under(store, prefix.push(SegmentKey::Variable), path, depth + 1);
        let part = under(store, prefix.push(key), path, depth + 1);
        let at = choose|at: int| 0 <= at < part.len() && part[at] == wanted;
        match key {
            SegmentKey::Static(literal_text) => {
                if text.len() > 0 {
                    assert((literal + wildcard + variable)[at] == wanted);
                }
            },
            SegmentKey::Wildcard => {
                assert((literal + wildcard + variable)[literal.len() + at] == wanted);
            },
            SegmentKey::Variable => {
                assert((literal + wildcard + variable)[literal.len() + wildcard.len() + at]
                    == wanted);
            },
        }
    }
}

/// Every match under `prefix` is the match of a leaf stored under keys
/// that go on from `prefix` with keys that match the rest of the path.
pub proof fn lemma_under_origin<T>(
    store: Store<T>,
    prefix: Seq<SegmentKey>,
    path: Seq<Seq<char>>,
    depth: int,
    at: int,
) -> (origin: (Seq<SegmentKey>, int))
    requires
        0 <= depth <= path.len(),
        0 <= at < under(store, prefix, path, depth).len(),
    ensures
        tail_matches(origin.0, path, depth),
        0 <= origin.1 < store[prefix + origin.0].len(),
        under(store, prefix, path, depth)[at] == bind(
            store[prefix + origin.0][origin.1],
            path,
        ),
    decreases path.len() - depth,
{
    if depth >= path.len() {
        let tail = Seq::<SegmentKey>::empty();
        (tail, at)
    } else {
        let text = path[depth];
        let literal = under(store, prefix.push(SegmentKey::Static(text)), path, depth + 1);
        let wildcard = under(store, prefix.push(SegmentKey::Wildcard), path, depth + 1);
        let key = if at < literal.len() {
            SegmentKey::Static(text)
        } else if at < literal.len() + wildcard.len() {
            SegmentKey::Wildcard
        } else {
            SegmentKey::Variable
        };
        let inner = if at < literal.len() {
            at
        } else if at < literal.len() + wildcard.len() {
            at - literal.len()
        } else {
            at - literal.len() - wildcard.len()
        };
        let (rest, i) = lemma_under_origin(store, prefix.push(key), path, depth + 1, inner);
        let tail = seq![key] + rest;
        assert(prefix.push(key) + rest == prefix + tail);
        (tail, i)
    }
}

/// A lookup gives the match of a stored leaf exactly when the leaf's
/// pattern matches the path: it has the path's length, each literal is the
/// text of its component, and each wildcard or variable stands at a
/// component that is not empty. The matches come in ascending order of
/// their indices.
pub proof fn lemma_lookup_exact<T>(store: Store<T>, path: Seq<Seq<char>>)
    ensures
        ascending(lookup(store, path)),
        forall|keys: Seq<SegmentKey>, i: int|
            keys_match(keys, path) && 0 <= i < store[keys].len()
                ==> lookup(store, path).contains(bind(#[trigger] store[keys][i], path)),
        forall|found: Match<T>|
            lookup(store, path).contains(found) ==> exists|keys: Seq<SegmentKey>, i: int|
                keys_match(keys, path) && 0 <= i < store[keys].len() && found == bind(
                    #[trigger] store[keys][i],
                    path,
                ),
{
    let none = Seq::<SegmentKey>::empty();
    let all = candidates(store, path);
    lemma_sort_by_index(all);
    assert forall|keys: Seq<SegmentKey>, i: int|
        keys_match(keys, path) && 0 <= i < store[keys].len() implies lookup(
        store,
        path,
    ).contains(bind(#[trigger] store[keys][i], path)) by {
        lemma_under_holds(store, none, keys, path, 0, i);
    }
    assert forall|found: Match<T>| lookup(store, path).contains(found) implies exists|
        keys: Seq<SegmentKey>,
        i: int,
    |
        keys_match(keys, path) && 0 <= i < store[keys].len() && found == bind(
            #[trigger] store[keys][i],
            path,
        ) by {
        assert(all.contains(found));
        let at = choose|at: int| 0 <= at < all.len() && all[at] == found;
        let (keys, i) = lemma_under_origin(store, none, path, 0, at);
    }
}

/// What was inserted under a pattern is found by every path that the
/// pattern matches, and by no path that it does not match unless the store
/// held an equal match for it before.
pub proof fn lemma_inserted_is_found<T>(
    store: Store<T>,
    pattern: Seq<Seq<char>>,
    data: T,
    index: usize,
    path: Seq<Seq<char>>,
)
    ensures
        ({
            let keys = keys_of(pattern);
            let leaf = leaf_of(pattern, data, index);
            let after = store.insert(keys, store[keys].push(leaf));
            &&& keys_match(keys, path) ==> lookup(after, path).contains(bind(leaf, path))
            &&& !keys_match(keys, path) && lookup(after, path).contains(bind(leaf, path))
                ==> lookup(store, path).contains(bind(leaf, path))
        }),
{
    let keys = keys_of(pattern);
    let leaf = leaf_of(pattern, data, index);
    let after = store.insert(keys, store[keys].push(leaf));
    lemma_lookup_exact(after, path);
    lemma_lookup_exact(store, path);
    if keys_match(keys, path) {
        assert(after[keys][store[keys].len() as int] == leaf);
    } else if lookup(after, path).contains(bind(leaf, path)) {
        let (k, i) = choose|k: Seq<SegmentKey>, i: int|
            keys_match(k, path) && 0 <= i < after[k].len() && bind(leaf, path) == bind(
                #[trigger] after[k][i],
                path,
            );
    }
}

/// Nothing is found under any keys of a store without leaves.
pub proof fn lemma_under_empty<T>(prefix: Seq<SegmentKey>, path: Seq<Seq<char>>, depth: int)
    ensures
        under(empty_store::<T>(), prefix, path, depth) == Seq::<Match<T>>::empty(),
    decreases path.len() - depth,
{
    if depth < 0 || depth >= path.len() {
    } else {
        let text = path[depth];
        lemma_under_empty::<T>(prefix.push(SegmentKey::Static(text)), path, depth + 1);
        lemma_under_empty::<T>(prefix.push(SegmentKey::Wildcard), path, depth + 1);
        lemma_under_empty::<T>(prefix.push(SegmentKey::Variable), path, depth + 1);
    }
}

/// A lookup in a store without leaves finds nothing.
pub proof fn lemma_lookup_empty<T>(path: Seq<Seq<char>>)
    ensures
        lookup(empty_store::<T>(), path) == Seq::<Match<T>>::empty(),
{
    lemma_under_empty::<T>(Seq::empty(), path, 0);
}

/// The store that holds one leaf, under the pattern with the keys `keys`.
pub open spec fn single<T>(keys: Seq<SegmentKey>, leaf: Leaf<T>) -> Store<T> {
    empty_store::<T>().insert(keys, seq![leaf])
}

/// The keys begin with `prefix`, and go on with keys that match `path`
/// from its component `depth` on, one for one.
pub open spec fn goes_on(
    keys: Seq<SegmentKey>,
    prefix: Seq<SegmentKey>,
    path: Seq<Seq<char>>,
    depth: int,
) -> bool {
    &&& keys.len() == prefix.len() + (path.len() - depth)
    &&& keys.take(prefix.len() as int) == prefix
    &&& tail_matches(keys.skip(prefix.len() as int), path, depth)
}

/// Keys go on from a prefix exactly when their next key matches the next
/// component and they go on from the prefix with that key.
proof fn lemma_goes_on_step(
    keys: Seq<SegmentKey>,
    prefix: Seq<SegmentKey>,
    path: Seq<Seq<char>>,
    depth: int,
)
    requires
        0 <= depth < path.len(),
    ensures
        goes_on(keys, prefix, path, depth) ==> key_matches(
            keys[prefix.len() as int],
            path[depth],
        ) && goes_on(keys, prefix.push(keys[prefix.len() as int]), path, depth + 1),
        forall|key: SegmentKey|
            key_matches(key, path[depth]) && #[trigger] goes_on(
                keys,
                prefix.push(key),
                path,
                depth + 1,
            ) ==> goes_on(keys, prefix, path, depth) && keys[prefix.len() as int] == key,
{
    let p = prefix.len() as int;
    if goes_on(keys, prefix, path, depth) {
        let tail = keys.skip(p);
        let key = keys[p];
        assert(tail[0] == key);
        assert(key_matches(tail[0], path[depth + 0]));
        assert(keys.take(p + 1) =~= prefix.push(key));
        let rest = keys.skip(p + 1);
        assert forall|i: int| 0 <= i < rest.len() implies key_matches(
            #[trigger] rest[i],
            path[depth + 1 + i],
        ) by {
            assert(rest[i] == tail[i + 1]);
            assert(key_matches(tail[i + 1], path[depth + (i + 1)]));
        }
    }
    assert forall|key: SegmentKey|
        key_matches(key, path[depth]) && #[trigger] goes_on(
            keys,
            prefix.push(key),
            path,
            depth + 1,
        ) implies goes_on(keys, prefix, path, depth) && keys[p] == key by {
        let longer = prefix.push(key);
        assert(keys.take(p + 1)[p] == longer[p]);
        assert(keys.take(p) =~= prefix) by {
            assert forall|i: int| 0 <= i < p implies keys.take(p)[i] == prefix[i] by {
                assert(keys.take(p + 1)[i] == longer[i]);
            }
        }
        let tail = keys.skip(p);
        let rest = keys.skip(p + 1);
        assert forall|i: int| 0 <= i < tail.len() implies key_matches(
            #[trigger] tail[i],
            path[depth + i],
        ) by {
            if i > 0 {
                assert(tail[i] == rest[i - 1]);
                assert(key_matches(rest[i - 1], path[depth + 1 + (i - 1)]));
            }
        }
    }
}

/// In a store with one leaf, what is found under a prefix is the match of
/// the leaf where the keys of its pattern go on from the prefix, and
/// nothing elsewhere.
pub proof fn lemma_under_single<T>(
    keys: Seq<SegmentKey>,
    leaf: Leaf<T>,
    prefix: Seq<SegmentKey>,
    path: Seq<Seq<char>>,
    depth: int,
)
    requires
        0 <= depth <= path.len(),
    ensures
        under(single(keys, leaf), prefix, path, depth) == (if goes_on(keys, prefix, path, depth) {
            seq![bind(leaf, path)]
        } else {
            Seq::empty()
        }),
    decreases path.len() - depth,
{
    let store = single(keys, leaf);
    let found = seq![bind(leaf, path)];
    if depth >= path.len() {
        if goes_on(keys, prefix, path, depth) {
            assert(keys.take(keys.len() as int) == keys);
            assert(store[prefix] == seq![leaf]);
            assert(under(store, prefix, path, depth) =~= found);
        } else {
            if prefix == keys {
                assert(keys.take(keys.len() as int) == keys);
                assert(keys.skip(keys.len() as int).len() == 0);
                assert(false);
            }
            assert(store[prefix] == Seq::<Leaf<T>>::empty());
            assert(under(store, prefix, path, depth) =~= Seq::<Match<T>>::empty());
        }
    } else {
        let text = path[depth];
        let a = SegmentKey::Static(text);
        let b = SegmentKey::Wildcard;
        let c = SegmentKey::Variable;
        lemma_under_single(keys, leaf, prefix.push(a), path, depth + 1);
        lemma_under_single(keys, leaf, prefix.push(b), path, depth + 1);
        lemma_under_single(keys, leaf, prefix.push(c), path, depth + 1);
        lemma_goes_on_step(keys, prefix, path, depth);
        let first = under(store, prefix.push(a), path, depth + 1);
        let second = under(store, prefix.push(b), path, depth + 1);
        let third = under(store, prefix.push(c), path, depth + 1);
        if goes_on(keys, prefix, path, depth) {
            let key = keys[prefix.len() as int];
            assert(goes_on(keys, prefix.push(key), path, depth + 1));
            match key {
                SegmentKey::Static(literal) => {
                    assert(key == a);
                    if text.len() > 0 {
                        assert(!goes_on(keys, prefix.push(b), path, depth + 1));
                        assert(!goes_on(keys, prefix.push(c), path, depth + 1));
                        assert(first + second + third =~= found);
                    }
                },
                SegmentKey::Wildcard => {
                    assert(!goes_on(keys, prefix.push(a), path, depth + 1));
                    assert(!goes_on(keys, prefix.push(c), path, depth + 1));
                    assert(first + second + third =~= found);
                },
                SegmentKey::Variable => {
                    assert(!goes_on(keys, prefix.push(a), path, depth + 1));
                    assert(!goes_on(keys, prefix.push(b), path, depth + 1));
                    assert(first + second + third =~= found);
                },
            }
        } else {
            assert(!goes_on(keys, prefix.push(a), path, depth + 1));
            if text.len() > 0 {
                assert(!goes_on(keys, prefix.push(b), path, depth + 1));
                assert(!goes_on(keys, prefix.push(c), path, depth + 1));
                assert(first + second + third =~= Seq::<Match<T>>::empty());
            }
        }
    }
}

/// A lookup in a store with one leaf finds the match of the leaf where its
/// pattern matches the path, and nothing elsewhere.
pub proof fn lemma_lookup_single<T>(keys: Seq<SegmentKey>, leaf: Leaf<T>, path: Seq<Seq<char>>)
    ensures
        lookup(single(keys, leaf), path) == (if keys_match(keys, path) {
            seq![bind(leaf, path)]
        } else {
            Seq::empty()
        }),
{
    let none = Seq::<SegmentKey>::empty();
    lemma_under_single(keys, leaf, none, path, 0);
    assert(goes_on(keys, none, path, 0) == keys_match(keys, path)) by {
        assert(keys.take(0) =~= none);
        assert(keys.skip(0) =~= keys);
    }
    let found = bind(leaf, path);
    let one = seq![found];
    assert(one.drop_last() =~= Seq::<Match<T>>::empty());
    assert(one.last() == found);
    assert(insert_all(Seq::<Match<T>>::empty(), one) =~= one) by {
        let nothing = Seq::<Match<T>>::empty();
        assert(insert_all(nothing, one.drop_last()) == nothing);
        assert(insert_position(nothing, found.index) == 0);
        assert(nothing.insert(0, found) =~= one);
    }
}

/// Every index in the list is less than `bound`.
pub open spec fn matches_below<T>(found: Seq<Match<T>>, bound: int) -> bool {
    forall|t: int| 0 <= t < found.len() ==> (#[trigger] found[t]).index < bound
}

/// What is found in a store has the indices of the store: a bound on the
/// one is a bound on the other.
pub proof fn lemma_lookup_below<T>(store: Store<T>, path: Seq<Seq<char>>, bound: nat)
    requires
        store_below(store, bound),
    ensures
        matches_below(candidates(store, path), bound as int),
        matches_below(lookup(store, path), bound as int),
{
    let all = candidates(store, path);
    let none = Seq::<SegmentKey>::empty();
    assert forall|t: int| 0 <= t < all.len() implies (#[trigger] all[t]).index < bound by {
        let (keys, i) = lemma_under_origin(store, none, path, 0, t);
        assert(store[none + keys][i].index < bound);
    }
    lemma_sort_by_index(all);
    let sorted = lookup(store, path);
    assert forall|t: int| 0 <= t < sorted.len() implies (#[trigger] sorted[t]).index < bound by {
        assert(sorted.contains(sorted[t]));
        assert(all.contains(sorted[t]));
        let at = choose|at: int| 0 <= at < all.len() && all[at] == sorted[t];
        assert(all[at].index < bound);
    }
}

/// A match whose index is greater than the indices of the matches that are
/// put in behind it stays the last.
pub proof fn lemma_insert_all_behind<T>(sorted: Seq<Match<T>>, last: Match<T>, items: Seq<Match<T>>)
    requires
        matches_below(items, last.index as int),
    ensures
        insert_all(sorted.push(last), items) == insert_all(sorted, items).push(last),
    decreases items.len(),
{
    if items.len() > 0 {
        let shorter = items.drop_last();
        let item = items.last();
        assert(matches_below(shorter, last.index as int)) by {
            assert forall|t: int| 0 <= t < shorter.len() implies (#[trigger] shorter[t]).index
                < last.index by {
                assert(shorter[t] == items[t]);
            }
        }
        lemma_insert_all_behind(sorted, last, shorter);
        let before = insert_all(sorted, shorter);
        lemma_insert_position(before, item.index);
        let with_last = before.push(last);
        assert(item.index < last.index);
        assert(with_last.drop_last() =~= before);
        assert(insert_position(with_last, item.index) == insert_position(before, item.index));
        assert(with_last.insert(insert_position(before, item.index), item) =~= before.insert(
            insert_position(before, item.index),
            item,
        ).push(last));
    }
}

/// What is found under a prefix once a store has one more leaf: what was
/// found, with the match of the leaf put in at one place if the keys of
/// its pattern go on from the prefix. The lemma gives what stands before
/// that place and what stands behind it.
pub proof fn lemma_under_pushed<T>(
    store: Store<T>,
    keys: Seq<SegmentKey>,
    leaf: Leaf<T>,
    prefix: Seq<SegmentKey>,
    path: Seq<Seq<char>>,
    depth: int,
) -> (parts: (Seq<Match<T>>, Seq<Match<T>>))
    requires
        0 <= depth <= path.len(),
        store.dom().contains(keys),
    ensures
        under(store, prefix, path, depth) == parts.0 + parts.1,
        under(store.insert(keys, store[keys].push(leaf)), prefix, path, depth) == (if goes_on(
            keys,
            prefix,
            path,
            depth,
        ) {
            parts.0.push(bind(leaf, path)) + parts.1
        } else {
            parts.0 + parts.1
        }),
    decreases path.len() - depth,
{
    let after = store.insert(keys, store[keys].push(leaf));
    let found = bind(leaf, path);
    let nothing = Seq::<Match<T>>::empty();
    let was = under(store, prefix, path, depth);
    if depth >= path.len() {
        if prefix == keys {
            assert(keys.take(keys.len() as int) == keys);
            assert(keys.skip(keys.len() as int).len() == 0);
            assert(goes_on(keys, prefix, path, depth));
            assert(under(after, prefix, path, depth) =~= was.push(found) + nothing);
        } else {
            if goes_on(keys, prefix, path, depth) {
                assert(keys.take(keys.len() as int) == keys);
                assert(false);
            }
            assert(after[prefix] == store[prefix]);
            assert(under(after, prefix, path, depth) =~= was + nothing);
        }
        assert(was =~= was + nothing);
        (was, nothing)
    } else {
        let text = path[depth];
        let a = SegmentKey::Static(text);
        let b = SegmentKey::Wildcard;
        let c = SegmentKey::Variable;
        let (a0, a1) = lemma_under_pushed(store, keys, leaf, prefix.push(a), path, depth + 1);
        let (b0, b1) = lemma_under_pushed(store, keys, leaf, prefix.push(b), path, depth + 1);
        let (c0, c1) = lemma_under_pushed(store, keys, leaf, prefix.push(c), path, depth + 1);
        lemma_goes_on_step(keys, prefix, path, depth);
        let first = under(store, prefix.push(a), path, depth + 1);
        let second = under(store, prefix.push(b), path, depth + 1);
        let third = under(store, prefix.push(c), path, depth + 1);
        let now = under(after, prefix, path, depth);
        if goes_on(keys, prefix, path, depth) {
            let key = keys[prefix.len() as int];
            assert(goes_on(keys, prefix.push(key), path, depth + 1));
            match key {
                SegmentKey::Static(literal) => {
                    assert(key == a);
                    if text.len() > 0 {
                        assert(!goes_on(keys, prefix.push(b), path, depth + 1));
                        assert(!goes_on(keys, prefix.push(c), path, depth + 1));
                        let behind = a1 + second + third;
                        assert(was =~= a0 + behind);
                        assert(now =~= a0.push(found) + behind);
                        (a0, behind)
                    } else {
                        assert(was =~= a0 + a1);
                        assert(now =~= a0.push(found) + a1);
                        (a0, a1)
                    }
                },
                SegmentKey::Wildcard => {
                    assert(!goes_on(keys, prefix.push(a), path, depth + 1));
                    assert(!goes_on(keys, prefix.push(c), path, depth + 1));
                    let front = first + b0;
                    let behind = b1 + third;
                    assert(was =~= front + behind);
                    assert(now =~= front.push(found) + behind);
                    (front, behind)
                },
                SegmentKey::Variable => {
                    assert(!goes_on(keys, prefix.push(a), path, depth + 1));
                    assert(!goes_on(keys, prefix.push(b), path, depth + 1));
                    let front = first + second + c0;
                    assert(was =~= front + c1);
                    assert(now =~= front.push(found) + c1);
                    (front, c1)
                },
            }
        } else {
            assert(!goes_on(keys, prefix.push(a), path, depth + 1));
            if text.len() > 0 {
                assert(!goes_on(keys, prefix.push(b), path, depth + 1));
                assert(!goes_on(keys, prefix.push(c), path, depth + 1));
            }
            assert(now =~= was + nothing);
            assert(was =~= was + nothing);
            (was, nothing)
        }
    }
}

/// A lookup once a store has one more leaf, whose index is greater than
/// every index in the store: what was found, and behind it the match of
/// the leaf if its pattern matches the path.
pub proof fn lemma_lookup_pushed<T>(
    store: Store<T>,
    keys: Seq<SegmentKey>,
    leaf: Leaf<T>,
    path: Seq<Seq<char>>,
)
    requires
        store.dom().contains(keys),
        store_below(store, leaf.index as nat),
    ensures
        lookup(store.insert(keys, store[keys].push(leaf)), path) == (if keys_match(keys, path) {
            lookup(store, path).push(bind(leaf, path))
        } else {
            lookup(store, path)
        }),
{
    let none = Seq::<SegmentKey>::empty();
    let nothing = Seq::<Match<T>>::empty();
    let found = bind(leaf, path);
    let (front, behind) = lemma_under_pushed(store, keys, leaf, none, path, 0);
    assert(goes_on(keys, none, path, 0) == keys_match(keys, path)) by {
        assert(keys.take(0) =~= none);
        assert(keys.skip(0) =~= keys);
    }
    if keys_match(keys, path) {
        let all = candidates(store, path);
        lemma_lookup_below(store, path, leaf.index as nat);
        assert(matches_below(front, leaf.index as int)) by {
            assert forall|t: int| 0 <= t < front.len() implies (#[trigger] front[t]).index
                < leaf.index by {
                assert(front[t] == all[t]);
            }
        }
        assert(matches_below(behind, leaf.index as int)) by {
            assert forall|t: int| 0 <= t < behind.len() implies (#[trigger] behind[t]).index
                < leaf.index by {
                assert(behind[t] == all[front.len() + t]);
            }
        }
        let sorted_front = insert_all(nothing, front);
        lemma_sort_by_index(front);
        assert(matches_below(sorted_front, leaf.index as int)) by {
            assert forall|t: int| 0 <= t < sorted_front.len() implies (
            #[trigger] sorted_front[t]).index < leaf.index by {
                assert(sort_by_index(front).contains(sorted_front[t]));
                assert(front.contains(sorted_front[t]));
                let at = choose|at: int| 0 <= at < front.len() && front[at] == sorted_front[t];
                assert(front[at].index < leaf.index);
            }
        }
        let longer = front.push(found);
        assert(longer.drop_last() =~= front);
        assert(insert_all(nothing, longer) == sorted_insert(sorted_front, found));
        lemma_insert_position(sorted_front, found.index);
        assert(insert_position(sorted_front, found.index) == sorted_front.len()) by {
            if sorted_front.len() > 0 {
                assert(sorted_front.last().index < leaf.index);
            }
        }
        assert(sorted_insert(sorted_front, found) =~= sorted_front.push(found));
        lemma_insert_all_concat(nothing, longer, behind);
        lemma_insert_all_behind(sorted_front, found, behind);
        lemma_insert_all_concat(nothing, front, behind);
    }
}

/// No two matches of the list have the same index.
pub open spec fn distinct_in<T>(found: Seq<Match<T>>) -> bool {
    forall|p: int, q: int|
        0 <= p < q < found.len() ==> (#[trigger] found[p]).index != (#[trigger] found[q]).index
}

/// No match of the one list has the index of a match of the other.
pub open spec fn apart<T>(first: Seq<Match<T>>, second: Seq<Match<T>>) -> bool {
    forall|p: int, q: int|
        0 <= p < first.len() && 0 <= q < second.len() ==> (#[trigger] first[p]).index != (
        #[trigger] second[q]).index
}

/// No two leaves of the store have the same index.
pub open spec fn store_distinct<T>(store: Store<T>) -> bool {
    forall|k1: Seq<SegmentKey>, i1: int, k2: Seq<SegmentKey>, i2: int|
        0 <= i1 < store[k1].len() && 0 <= i2 < store[k2].len() && (#[trigger] store[k1][i1]).index
            == (#[trigger] store[k2][i2]).index ==> k1 == k2 && i1 == i2
}

/// Two lists without an index twice, apart from each other, are one list
/// without an index twice.
pub proof fn lemma_concat_distinct<T>(first: Seq<Match<T>>, second: Seq<Match<T>>)
    requires
        distinct_in(first),
        distinct_in(second),
        apart(first, second),
    ensures
        distinct_in(first + second),
{
    let both = first + second;
    assert forall|p: int, q: int| 0 <= p < q < both.len() implies (#[trigger] both[p]).index != (
    #[trigger] both[q]).index by {
        if q < first.len() {
            assert(both[p] == first[p] && both[q] == first[q]);
        } else if p >= first.len() {
            assert(both[p] == second[p - first.len()] && both[q] == second[q - first.len()]);
        } else {
            assert(both[p] == first[p] && both[q] == second[q - first.len()]);
        }
    }
}

/// A list that holds each match as often as a list without an index twice
/// has no index twice.
pub proof fn lemma_permutation_distinct<T>(first: Seq<Match<T>>, second: Seq<Match<T>>)
    requires
        first.to_multiset() == second.to_multiset(),
        distinct_in(first),
    ensures
        distinct_in(second),
{
    broadcast use vstd::multiset::group_multiset_axioms;

    assert(first.no_duplicates()) by {
        assert forall|i: int, j: int|
            0 <= i < first.len() && 0 <= j < first.len() && i != j implies first[i]
            != first[j] by {
            if i < j {
                assert(first[i].index != first[j].index);
            } else {
                assert(first[j].index != first[i].index);
            }
        }
    }
    first.lemma_multiset_has_no_duplicates();
    second.lemma_multiset_has_no_duplicates_conv();
    assert forall|p: int, q: int| 0 <= p < q < second.len() implies (#[trigger] second[p]).index
        != (#[trigger] second[q]).index by {
        assert(second[p] != second[q]);
        to_multiset_contains(second, second[p]);
        to_multiset_contains(second, second[q]);
        to_multiset_contains(first, second[p]);
        to_multiset_contains(first, second[q]);
        assert(second.contains(second[p]));
        assert(second.contains(second[q]));
        let a = choose|a: int| 0 <= a < first.len() && first[a] == second[p];
        let b = choose|b: int| 0 <= b < first.len() && first[b] == second[q];
        if a < b {
            assert(first[a].index != first[b].index);
        } else {
            assert(first[b].index != first[a].index);
        }
    }
}

/// What is found under two prefixes that differ in their last key comes
/// from different leaves: in a store without an index twice the two lists
/// are apart.
proof fn lemma_under_apart<T>(
    store: Store<T>,
    prefix: Seq<SegmentKey>,
    one: SegmentKey,
    other: SegmentKey,
    path: Seq<Seq<char>>,
    depth: int,
)
    requires
        0 <= depth <= path.len(),
        store_distinct(store),
        one != other,
    ensures
        apart(
            under(store, prefix.push(one), path, depth),
            under(store, prefix.push(other), path, depth),
        ),
{
    let first = under(store, prefix.push(one), path, depth);
    let second = under(store, prefix.push(other), path, depth);
    assert forall|p: int, q: int| 0 <= p < first.len() && 0 <= q < second.len() implies (
    #[trigger] first[p]).index != (#[trigger] second[q]).index by {
        let (tail1, i1) = lemma_under_origin(store, prefix.push(one), path, depth, p);
        let (tail2, i2) = lemma_under_origin(store, prefix.push(other), path, depth, q);
        let k1 = prefix.push(one) + tail1;
        let k2 = prefix.push(other) + tail2;
        assert(k1[prefix.len() as int] == one);
        assert(k2[prefix.len() as int] == other);
        assert(store[k1][i1].index == first[p].index);
        assert(store[k2][i2].index == second[q].index);
    }
}

/// In a store without an index twice, what is found under a prefix has no
/// index twice: every leaf is found at most once.
pub proof fn lemma_under_distinct<T>(
    store: Store<T>,
    prefix: Seq<SegmentKey>,
    path: Seq<Seq<char>>,
    depth: int,
)
    requires
        0 <= depth <= path.len(),
        store_distinct(store),
    ensures
        distinct_in(under(store, prefix, path, depth)),
    decreases path.len() - depth,
{
    let all = under(store, prefix, path, depth);
    if depth >= path.len() {
        assert forall|p: int, q: int| 0 <= p < q < all.len() implies (#[trigger] all[p]).index != (
        #[trigger] all[q]).index by {
            assert(store[prefix][p].index == all[p].index);
            assert(store[prefix][q].index == all[q].index);
        }
    } else {
        let text = path[depth];
        let a = SegmentKey::Static(text);
        let b = SegmentKey::Wildcard;
        let c = SegmentKey::Variable;
        lemma_under_distinct(store, prefix.push(a), path, depth + 1);
        if text.len() > 0 {
            lemma_under_distinct(store, prefix.push(b), path, depth + 1);
            lemma_under_distinct(store, prefix.push(c), path, depth + 1);
            lemma_under_apart(store, prefix, a, b, path, depth + 1);
            lemma_under_apart(store, prefix, a, c, path, depth + 1);
            lemma_under_apart(store, prefix, b, c, path, depth + 1);
            let first = under(store, prefix.push(a), path, depth + 1);
            let second = under(store, prefix.push(b), path, depth + 1);
            let third = under(store, prefix.push(c), path, depth + 1);
            lemma_concat_distinct(first, second);
            assert(apart(first + second, third)) by {
                assert forall|p: int, q: int|
                    0 <= p < (first + second).len() && 0 <= q < third.len() implies (
                #[trigger] (first + second)[p]).index != (#[trigger] third[q]).index by {
                    if p < first.len() {
                        assert((first + second)[p] == first[p]);
                    } else {
                        assert((first + second)[p] == second[p - first.len()]);
                    }
                }
            }
            lemma_concat_distinct(first + second, third);
        }
    }
}

/// In a store without an index twice, the indices of what a lookup finds
/// ascend strictly: no handler is found twice.
pub proof fn lemma_lookup_distinct<T>(store: Store<T>, path: Seq<Seq<char>>)
    requires
        store_distinct(store),
    ensures
        distinct_in(lookup(store, path)),
{
    lemma_under_distinct(store, Seq::empty(), path, 0);
    lemma_sort_by_index(candidates(store, path));
    lemma_permutation_distinct(candidates(store, path), lookup(store, path));
}

} // verus!
