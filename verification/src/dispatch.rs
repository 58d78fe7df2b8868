//! The merge of the three lists of matches that a request draws on, by the
//! indices of the handlers.

use vstd::prelude::*;
use vstd::seq_lib::lemma_multiset_commutative;
use crate::trie::{ascending, match_views, Match, MatchedPath};

verus! {

/// One of the three lists of matches that a request draws on.
#[derive(Copy, Clone, Debug, PartialEq, Eq, Structural)]
pub enum Source {
    /// The routes of the request's own method.
    Method,
    /// The routes registered for every method.
    Any,
    /// The handlers registered without a pattern.
    Middleware,
}

/// The index of the match at position `at`, if the list goes that far.
pub open spec fn head<T>(source: Seq<Match<T>>, at: int) -> Option<usize> {
    if 0 <= at < source.len() {
        Some(source[at].index)
    } else {
        None
    }
}

/// How many matches are left from position `at` on.
pub open spec fn left<T>(source: Seq<Match<T>>, at: int) -> nat {
    if 0 <= at < source.len() {
        (source.len() - at) as nat
    } else {
        0
    }
}

/// The list to draw from next: the one whose next match has the least
/// index; of lists whose next matches have the same index, the one that
/// comes first. None when all three lists are used up.
pub open spec fn pick<T>(
    method: Seq<Match<T>>,
    any: Seq<Match<T>>,
    middleware: Seq<Match<T>>,
    i: int,
    j: int,
    k: int,
) -> Option<Source> {
    let x = head(method, i);
    let y = head(any, j);
    let z = head(middleware, k);
    if x is Some && (y is None || x->0 <= y->0) && (z is None || x->0 <= z->0) {
        Some(Source::Method)
    } else if y is Some && (z is None || y->0 <= z->0) {
        Some(Source::Any)
    } else if z is Some {
        Some(Source::Middleware)
    } else {
        None
    }
}

/// The three lists merged from the positions `i`, `j` and `k` on: again
/// and again the next match of the list that `pick` names.
pub open spec fn merged<T>(
    method: Seq<Match<T>>,
    any: Seq<Match<T>>,
    middleware: Seq<Match<T>>,
    i: int,
    j: int,
    k: int,
) -> Seq<Match<T>>
    decreases left(method, i) + left(any, j) + left(middleware, k),
{
    match pick(method, any, middleware, i, j, k) {
        Some(Source::Method) => seq![method[i]] + merged(method, any, middleware, i + 1, j, k),
        Some(Source::Any) => seq![any[j]] + merged(method, any, middleware, i, j + 1, k),
        Some(Source::Middleware) => seq![middleware[k]] + merged(
            method,
            any,
            middleware,
            i,
            j,
            k + 1,
        ),
        None => Seq::empty(),
    }
}

/// The list to draw from next.
pub fn smallest<'a, T>(
    method: &Vec<MatchedPath<'a, T>>,
    any: &Vec<MatchedPath<'a, T>>,
    middleware: &Vec<MatchedPath<'a, T>>,
    i: usize,
    j: usize,
    k: usize,
) -> (source: Option<Source>)
    ensures
        source == pick(
            match_views(method@),
            match_views(any@),
            match_views(middleware@),
            i as int,
            j as int,
            k as int,
        ),
{
    let mut best: Option<Source> = None;
    let mut least: usize = usize::MAX;
    if i < method.len() {
        best = Some(Source::Method);
        least = method[i].index;
    }
    if j < any.len() && (best.is_none() || any[j].index < least) {
        best = Some(Source::Any);
        least = any[j].index;
    }
    if k < middleware.len() && (best.is_none() || middleware[k].index < least) {
        best = Some(Source::Middleware);
    }
    best
}

/// `floor` is not greater than the index of the match at position `at`,
/// if the list goes that far.
pub open spec fn at_least<T>(source: Seq<Match<T>>, at: int, floor: usize) -> bool {
    0 <= at < source.len() ==> floor <= source[at].index
}

/// Three ascending lists merge into an ascending list, and no index in it
/// is less than a number that is not greater than the three next indices.
pub proof fn lemma_merged_ascending<T>(
    method: Seq<Match<T>>,
    any: Seq<Match<T>>,
    middleware: Seq<Match<T>>,
    i: int,
    j: int,
    k: int,
    floor: usize,
)
    requires
        0 <= i,
        0 <= j,
        0 <= k,
        ascending(method),
        ascending(any),
        ascending(middleware),
        at_least(method, i, floor),
        at_least(any, j, floor),
        at_least(middleware, k, floor),
    ensures
        ascending(merged(method, any, middleware, i, j, k)),
        forall|t: int|
            0 <= t < merged(method, any, middleware, i, j, k).len() ==> floor <= (
            #[trigger] merged(method, any, middleware, i, j, k)[t]).index,
    decreases left(method, i) + left(any, j) + left(middleware, k),
{
    match pick(method, any, middleware, i, j, k) {
        Some(Source::Method) => {
            let first = method[i];
            if i + 1 < method.len() {
                assert(method[i].index <= method[i + 1].index);
            }
            lemma_merged_ascending(method, any, middleware, i + 1, j, k, first.index);
            let rest = merged(method, any, middleware, i + 1, j, k);
            lemma_cons_ascending(first, rest, floor);
        },
        Some(Source::Any) => {
            let first = any[j];
            if j + 1 < any.len() {
                assert(any[j].index <= any[j + 1].index);
            }
            lemma_merged_ascending(method, any, middleware, i, j + 1, k, first.index);
            let rest = merged(method, any, middleware, i, j + 1, k);
            lemma_cons_ascending(first, rest, floor);
        },
        Some(Source::Middleware) => {
            let first = middleware[k];
            if k + 1 < middleware.len() {
                assert(middleware[k].index <= middleware[k + 1].index);
            }
            lemma_merged_ascending(method, any, middleware, i, j, k + 1, first.index);
            let rest = merged(method, any, middleware, i, j, k + 1);
            lemma_cons_ascending(first, rest, floor);
        },
        None => {},
    }
}

/// A match in front of an ascending list whose indices are not less than
/// its own gives an ascending list.
proof fn lemma_cons_ascending<T>(first: Match<T>, rest: Seq<Match<T>>, floor: usize)
    requires
        ascending(rest),
        floor <= first.index,
        forall|t: int| 0 <= t < rest.len() ==> first.index <= (#[trigger] rest[t]).index,
    ensures
        ascending(seq![first] + rest),
        forall|t: int|
            0 <= t < (seq![first] + rest).len() ==> floor <= (#[trigger] (seq![first]
                + rest)[t]).index,
{
    let all = seq![first] + rest;
    assert forall|p: int, q: int| 0 <= p < q < all.len() implies all[p].index
        <= all[q].index by {
        assert(all[q] == rest[q - 1]);
        if p > 0 {
            assert(all[p] == rest[p - 1]);
        }
    }
    assert forall|t: int| 0 <= t < all.len() implies floor <= (#[trigger] all[t]).index by {
        if t > 0 {
            assert(all[t] == rest[t - 1]);
        }
    }
}

/// The merged list holds what is left of the three lists, each match as
/// often as they hold it together.
pub proof fn lemma_merged_permutes<T>(
    method: Seq<Match<T>>,
    any: Seq<Match<T>>,
    middleware: Seq<Match<T>>,
    i: int,
    j: int,
    k: int,
)
    requires
        0 <= i <= method.len(),
        0 <= j <= any.len(),
        0 <= k <= middleware.len(),
    ensures
        merged(method, any, middleware, i, j, k).to_multiset() == method.skip(i).to_multiset().add(
            any.skip(j).to_multiset(),
        ).add(middleware.skip(k).to_multiset()),
    decreases left(method, i) + left(any, j) + left(middleware, k),
{
    broadcast use vstd::multiset::group_multiset_axioms;

    let all = merged(method, any, middleware, i, j, k);
    let a = method.skip(i);
    let b = any.skip(j);
    let c = middleware.skip(k);
    match pick(method, any, middleware, i, j, k) {
        Some(Source::Method) => {
            lemma_merged_permutes(method, any, middleware, i + 1, j, k);
            let rest = merged(method, any, middleware, i + 1, j, k);
            assert(a == seq![method[i]] + method.skip(i + 1));
            lemma_multiset_commutative(seq![method[i]], method.skip(i + 1));
            lemma_multiset_commutative(seq![method[i]], rest);
        },
        Some(Source::Any) => {
            lemma_merged_permutes(method, any, middleware, i, j + 1, k);
            let rest = merged(method, any, middleware, i, j + 1, k);
            assert(b == seq![any[j]] + any.skip(j + 1));
            lemma_multiset_commutative(seq![any[j]], any.skip(j + 1));
            lemma_multiset_commutative(seq![any[j]], rest);
        },
        Some(Source::Middleware) => {
            lemma_merged_permutes(method, any, middleware, i, j, k + 1);
            let rest = merged(method, any, middleware, i, j, k + 1);
            assert(c == seq![middleware[k]] + middleware.skip(k + 1));
            lemma_multiset_commutative(seq![middleware[k]], middleware.skip(k + 1));
            lemma_multiset_commutative(seq![middleware[k]], rest);
        },
        None => {
            assert(b == Seq::<Match<T>>::empty());
            assert(c == Seq::<Match<T>>::empty());
            a.to_multiset_ensures();
            all.to_multiset_ensures();
        },
    }
}

/// From position `at` on, every index in the list is less than `bound`.
pub open spec fn rest_below<T>(source: Seq<Match<T>>, at: int, bound: usize) -> bool {
    forall|t: int| at <= t < source.len() ==> (#[trigger] source[t]).index < bound
}

/// The list with `last` behind it, if it is the list that `which` names.
pub open spec fn grown<T>(source: Seq<Match<T>>, own: Source, which: Source, last: Match<T>) -> Seq<
    Match<T>,
> {
    if own == which {
        source.push(last)
    } else {
        source
    }
}

/// A match whose index is greater than every index that is still to come
/// comes last in the merge, whichever of the three lists it ends.
pub proof fn lemma_merged_grown<T>(
    method: Seq<Match<T>>,
    any: Seq<Match<T>>,
    middleware: Seq<Match<T>>,
    i: int,
    j: int,
    k: int,
    which: Source,
    last: Match<T>,
)
    requires
        0 <= i <= method.len(),
        0 <= j <= any.len(),
        0 <= k <= middleware.len(),
        rest_below(method, i, last.index),
        rest_below(any, j, last.index),
        rest_below(middleware, k, last.index),
    ensures
        merged(
            grown(method, Source::Method, which, last),
            grown(any, Source::Any, which, last),
            grown(middleware, Source::Middleware, which, last),
            i,
            j,
            k,
        ) == merged(method, any, middleware, i, j, k).push(last),
    decreases left(method, i) + left(any, j) + left(middleware, k),
{
    let a = grown(method, Source::Method, which, last);
    let b = grown(any, Source::Any, which, last);
    let c = grown(middleware, Source::Middleware, which, last);
    let was = merged(method, any, middleware, i, j, k);
    let now = merged(a, b, c, i, j, k);
    let nothing = Seq::<Match<T>>::empty();
    if i < method.len() {
        assert(a[i] == method[i]);
        assert(method[i].index < last.index);
    }
    if j < any.len() {
        assert(b[j] == any[j]);
        assert(any[j].index < last.index);
    }
    if k < middleware.len() {
        assert(c[k] == middleware[k]);
        assert(middleware[k].index < last.index);
    }
    match pick(method, any, middleware, i, j, k) {
        Some(Source::Method) => {
            assert(pick(a, b, c, i, j, k) == Some(Source::Method));
            lemma_merged_grown(method, any, middleware, i + 1, j, k, which, last);
            let rest = merged(method, any, middleware, i + 1, j, k);
            assert(seq![method[i]] + rest.push(last) =~= (seq![method[i]] + rest).push(last));
        },
        Some(Source::Any) => {
            assert(pick(a, b, c, i, j, k) == Some(Source::Any));
            lemma_merged_grown(method, any, middleware, i, j + 1, k, which, last);
            let rest = merged(method, any, middleware, i, j + 1, k);
            assert(seq![any[j]] + rest.push(last) =~= (seq![any[j]] + rest).push(last));
        },
        Some(Source::Middleware) => {
            assert(pick(a, b, c, i, j, k) == Some(Source::Middleware));
            lemma_merged_grown(method, any, middleware, i, j, k + 1, which, last);
            let rest = merged(method, any, middleware, i, j, k + 1);
            assert(seq![middleware[k]] + rest.push(last) =~= (seq![middleware[k]] + rest).push(
                last,
            ));
        },
        None => {
            assert(was == nothing);
            match which {
                Source::Method => {
                    assert(a[i] == last);
                    assert(pick(a, b, c, i, j, k) == Some(Source::Method));
                    assert(pick(a, b, c, i + 1, j, k) is None);
                    assert(merged(a, b, c, i + 1, j, k) == nothing);
                    assert(now =~= nothing.push(last));
                },
                Source::Any => {
                    assert(b[j] == last);
                    assert(pick(a, b, c, i, j, k) == Some(Source::Any));
                    assert(pick(a, b, c, i, j + 1, k) is None);
                    assert(merged(a, b, c, i, j + 1, k) == nothing);
                    assert(now =~= nothing.push(last));
                },
                Source::Middleware => {
                    assert(c[k] == last);
                    assert(pick(a, b, c, i, j, k) == Some(Source::Middleware));
                    assert(pick(a, b, c, i, j, k + 1) is None);
                    assert(merged(a, b, c, i, j, k + 1) == nothing);
                    assert(now =~= nothing.push(last));
                },
            }
        },
    }
}

} // verus!
