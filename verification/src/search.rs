//! Breadth-first search for a shortest solution.
//!
//! The search keeps a discovery map (each state met so far, with the
//! transition by which it was first met) and a queue of the states met but
//! not yet expanded. What it has done so far is summed up in a [`Progress`]:
//! the states in the order in which they were met, and for each the route by
//! which the search came to it.

use vstd::prelude::*;
use std::collections::HashMap;
use std::collections::VecDeque;
use std::hash::Hash;
use vstd::std_specs::hash::obeys_key_model;
use crate::backtrack::{backtrack, chain};
use crate::order::{
    at_most,
    at_most_push,
    at_most_then_precedes,
    at_most_transitive,
    precedes,
    precedes_push,
    precedes_transitive,
};
use crate::route::{
    arrive,
    first_solution,
    first_solution_unique,
    follow,
    labels,
    reachable,
    solvable,
    solves,
    within,
    within_finite,
};
use crate::state::{duplicates_faithfully, Puzzle};

verus! {

/// How far a search has come.
#[verifier::reject_recursive_types(P)]
pub struct Progress<P: Puzzle> {
    /// The discovery map.
    pub found: Map<P, Option<(P, P::Move)>>,
    /// The states met, in the order in which they were met.
    pub order: Seq<P>,
    /// For each state met, the route by which it was met.
    pub routes: Seq<Seq<int>>,
    /// For each state met, its position in `order`.
    pub rank: Map<P, int>,
    /// How many states, from the front of `order`, have been expanded.
    pub head: int,
}

/// What holds of the `i`-th state met: the bookkeeping agrees on it, its
/// route leads to it, and its discovery entry is the last step of its route.
pub open spec fn settled<P: Puzzle>(st: Progress<P>, start: P, i: int) -> bool {
    let s = st.order[i];
    let route = st.routes[i];
    &&& st.rank.contains_key(s)
    &&& st.rank[s] == i
    &&& st.found.contains_key(s)
    &&& arrive(start, route) == Some(s)
    &&& match st.found[s] {
        None => route.len() == 0,
        Some((from, by)) => {
            &&& route.len() > 0
            &&& st.rank.contains_key(from)
            &&& 0 <= st.rank[from] < st.order.len()
            &&& st.order[st.rank[from]] == from
            &&& st.routes[st.rank[from]] == route.drop_last()
            &&& 0 <= route.last() < from.successors().len()
            &&& from.successors()[route.last()] == (by, s)
        },
    }
}

/// The `j`-th successor of the `i`-th state met has been met, by a route no
/// later than the one through that state.
pub open spec fn covered<P: Puzzle>(st: Progress<P>, i: int, j: int) -> bool {
    let t = st.order[i].successors()[j].1;
    &&& st.rank.contains_key(t)
    &&& 0 <= st.rank[t] < st.order.len()
    &&& st.order[st.rank[t]] == t
    &&& at_most(st.routes[st.rank[t]], st.routes[i].push(j))
}

/// The bookkeeping of a search from `start` is consistent: states are
/// listed once each, in the order of their routes, and every state expanded
/// is unsolved and has all its successors listed.
pub open spec fn consistent<P: Puzzle>(st: Progress<P>, start: P) -> bool {
    &&& st.order.len() == st.routes.len()
    &&& 0 <= st.head <= st.order.len()
    &&& st.order.len() > 0
    &&& st.routes[0] == Seq::<int>::empty()
    &&& st.found.dom() == st.rank.dom()
    &&& forall|s: P| #[trigger]
        st.rank.contains_key(s) ==> 0 <= st.rank[s] < st.order.len() && st.order[st.rank[s]] == s
    &&& forall|i: int| 0 <= i < st.order.len() ==> #[trigger] settled(st, start, i)
    &&& forall|i: int, j: int|
        0 <= i < j < st.order.len() ==> precedes(#[trigger] st.routes[i], #[trigger] st.routes[j])
    &&& forall|i: int| 0 <= i < st.head ==> !(#[trigger] st.order[i]).goal()
    &&& forall|i: int, j: int|
        0 <= i < st.head && 0 <= j < st.order[i].successors().len() ==> #[trigger] covered(
            st,
            i,
            j,
        )
}

/// The search is consistent and, where a state is waiting at the head, has
/// dealt with the first `k` successors of that state and has met nothing by
/// a route as late as the one through its `k`-th successor.
pub open spec fn underway<P: Puzzle>(st: Progress<P>, start: P, k: int) -> bool {
    &&& consistent(st, start)
    &&& st.head < st.order.len() ==> {
        &&& 0 <= k <= st.order[st.head].successors().len()
        &&& forall|j: int| 0 <= j < k ==> #[trigger] covered(st, st.head, j)
        &&& forall|i: int|
            0 <= i < st.order.len() ==> precedes(
                #[trigger] st.routes[i],
                st.routes[st.head].push(k),
            )
    }
}

/// The search before its first step: only `start` has been met.
pub open spec fn begun<P: Puzzle>(start: P) -> Progress<P> {
    Progress {
        found: Map::empty().insert(start, None),
        order: seq![start],
        routes: seq![Seq::<int>::empty()],
        rank: Map::empty().insert(start, 0int),
        head: 0,
    }
}

/// The search after meeting `s` for the first time, as the `k`-th successor
/// of the state at the head, by the move `by`.
pub open spec fn noted<P: Puzzle>(st: Progress<P>, s: P, by: P::Move, k: int) -> Progress<P> {
    Progress {
        found: st.found.insert(s, Some((st.order[st.head], by))),
        order: st.order.push(s),
        routes: st.routes.push(st.routes[st.head].push(k)),
        rank: st.rank.insert(s, st.order.len() as int),
        head: st.head,
    }
}

/// The search after the state at the head has been expanded.
pub open spec fn moved_on<P: Puzzle>(st: Progress<P>) -> Progress<P> {
    Progress { head: st.head + 1, ..st }
}

/// A search that has only met its start state is underway.
pub proof fn begun_underway<P: Puzzle>(start: P)
    ensures
        underway(begun(start), start, 0),
{
    let st = begun(start);
    assert(st.found.dom() =~= st.rank.dom());
    assert(settled(st, start, 0));
    assert(st.routes[0].push(0).len() == 1);
}

/// Meeting a new state keeps the search underway.
pub proof fn noted_underway<P: Puzzle>(st: Progress<P>, start: P, s: P, by: P::Move, k: int)
    requires
        underway(st, start, k),
        st.head < st.order.len(),
        0 <= k < st.order[st.head].successors().len(),
        st.order[st.head].successors()[k] == (by, s),
        !st.found.contains_key(s),
    ensures
        underway(noted(st, s, by, k), start, k + 1),
{
    let after = noted(st, s, by, k);
    let n = st.order.len() as int;
    let p = st.order[st.head];
    let via = st.routes[st.head];
    let route = via.push(k);
    assert(settled(st, start, st.head));
    assert(settled(st, start, 0));
    assert(!st.rank.contains_key(s));
    assert(after.found.dom() =~= after.rank.dom());
    assert forall|i: int| 0 <= i < after.order.len() implies #[trigger] settled(
        after,
        start,
        i,
    ) by {
        if i < n {
            assert(settled(st, start, i));
        } else {
            crate::route::arrive_push(start, via, k);
            assert(follow(p, k) == Some(s));
            assert(route.drop_last() =~= via);
        }
    }
    precedes_push(via, k, via, k + 1);
    assert forall|i: int| 0 <= i < after.order.len() implies precedes(
        #[trigger] after.routes[i],
        after.routes[after.head].push(k + 1),
    ) by {
        if i < n {
            precedes_transitive(st.routes[i], route, via.push(k + 1));
        }
    }
    assert forall|i: int, j: int|
        0 <= i < after.head && 0 <= j < after.order[i].successors().len() implies #[trigger] covered(
        after,
        i,
        j,
    ) by {
        assert(covered(st, i, j));
    }
    assert forall|j: int| 0 <= j < k + 1 implies #[trigger] covered(after, after.head, j) by {
        if j < k {
            assert(covered(st, st.head, j));
        }
    }
}

/// Passing over a successor that has been met before keeps the search underway.
pub proof fn passed_underway<P: Puzzle>(st: Progress<P>, start: P, k: int)
    requires
        underway(st, start, k),
        st.head < st.order.len(),
        0 <= k < st.order[st.head].successors().len(),
        st.found.contains_key(st.order[st.head].successors()[k].1),
    ensures
        underway(st, start, k + 1),
{
    let via = st.routes[st.head];
    let t = st.order[st.head].successors()[k].1;
    assert(st.rank.contains_key(t));
    precedes_push(via, k, via, k + 1);
    assert forall|i: int| 0 <= i < st.order.len() implies precedes(
        #[trigger] st.routes[i],
        via.push(k + 1),
    ) by {
        precedes_transitive(st.routes[i], via.push(k), via.push(k + 1));
    }
    assert forall|j: int| 0 <= j < k + 1 implies #[trigger] covered(st, st.head, j) by {
        if j == k {
            assert(precedes(st.routes[st.rank[t]], via.push(k)));
        }
    }
}

/// Once every successor of the unsolved state at the head has been dealt
/// with, the search is underway at the next state.
pub proof fn moved_on_underway<P: Puzzle>(st: Progress<P>, start: P)
    requires
        st.head < st.order.len(),
        underway(st, start, st.order[st.head].successors().len() as int),
        !st.order[st.head].goal(),
    ensures
        underway(moved_on(st), start, 0),
{
    let after = moved_on(st);
    let n = st.order[st.head].successors().len() as int;
    let via = st.routes[st.head];
    assert forall|i: int| 0 <= i < after.order.len() implies #[trigger] settled(
        after,
        start,
        i,
    ) by {
        assert(settled(st, start, i));
    }
    assert forall|i: int, j: int|
        0 <= i < after.head && 0 <= j < after.order[i].successors().len() implies #[trigger] covered(
        after,
        i,
        j,
    ) by {
        assert(covered(st, i, j));
    }
    if after.head < after.order.len() {
        let next = st.routes[after.head];
        precedes_push(via, n, next, 0);
        assert forall|i: int| 0 <= i < after.order.len() implies precedes(
            #[trigger] after.routes[i],
            next.push(0),
        ) by {
            precedes_transitive(st.routes[i], via.push(n), next.push(0));
        }
    }
}

/// Whatever a route leads to, the search has either met it by a route no
/// later, or still has a state waiting whose route is no later.
pub proof fn frontier<P: Puzzle>(st: Progress<P>, start: P, route: Seq<int>)
    requires
        underway(st, start, 0),
        arrive(start, route) is Some,
    ensures
        ({
            let s = arrive(start, route).unwrap();
            ||| st.rank.contains_key(s) && at_most(st.routes[st.rank[s]], route)
            ||| st.head < st.order.len() && at_most(st.routes[st.head], route)
        }),
    decreases route.len(),
{
    let s = arrive(start, route).unwrap();
    if route.len() == 0 {
        assert(settled(st, start, 0));
        assert(route =~= st.routes[0]);
    } else {
        let before = route.drop_last();
        let j = route.last();
        let t = arrive(start, before).unwrap();
        assert(route =~= before.push(j));
        frontier(st, start, before);
        if st.rank.contains_key(t) && at_most(st.routes[st.rank[t]], before) {
            let rt = st.rank[t];
            if rt < st.head {
                assert(covered(st, rt, j));
                at_most_push(st.routes[rt], before, j);
                at_most_transitive(st.routes[st.rank[s]], st.routes[rt].push(j), route);
            } else {
                if rt > st.head {
                    assert(precedes(st.routes[st.head], st.routes[rt]));
                }
                at_most_transitive(st.routes[st.head], st.routes[rt], before);
                at_most_then_precedes(st.routes[st.head], before, route);
            }
        } else {
            at_most_then_precedes(st.routes[st.head], before, route);
        }
    }
}

/// No solving route comes before the route of the state waiting at the head.
pub proof fn head_is_least<P: Puzzle>(st: Progress<P>, start: P, other: Seq<int>)
    requires
        underway(st, start, 0),
        st.head < st.order.len(),
        solves(start, other),
    ensures
        at_most(st.routes[st.head], other),
{
    frontier(st, start, other);
    let h = arrive(start, other).unwrap();
    if st.rank.contains_key(h) && at_most(st.routes[st.rank[h]], other) {
        let rh = st.rank[h];
        if rh > st.head {
            assert(precedes(st.routes[st.head], st.routes[rh]));
        }
        at_most_transitive(st.routes[st.head], st.routes[rh], other);
    }
}

/// A solved state waiting at the head has been met by the first solution.
pub proof fn head_solves<P: Puzzle>(st: Progress<P>, start: P)
    requires
        underway(st, start, 0),
        st.head < st.order.len(),
        st.order[st.head].goal(),
    ensures
        first_solution(start, st.routes[st.head]),
{
    assert(settled(st, start, st.head));
    assert forall|other: Seq<int>| #[trigger] solves(start, other) implies at_most(
        st.routes[st.head],
        other,
    ) by {
        head_is_least(st, start, other);
    }
}

/// A search with no state left waiting shows that there is no solution.
pub proof fn exhausted<P: Puzzle>(st: Progress<P>, start: P)
    requires
        underway(st, start, 0),
        st.head == st.order.len(),
    ensures
        !solvable(start),
{
    assert forall|route: Seq<int>| !solves(start, route) by {
        if solves(start, route) {
            frontier(st, start, route);
        }
    }
}

/// The discovery entries that lead to a state met spell out the moves of
/// its route. This holds of any map that agrees with the
/// discovery map on the states whose routes are no longer than that state's.
pub proof fn chain_follows_route<P: Puzzle>(
    st: Progress<P>,
    start: P,
    entries: Map<P, Option<(P, P::Move)>>,
    i: int,
)
    requires
        consistent(st, start),
        0 <= i < st.order.len(),
        entries.dom().finite(),
        forall|j: int|
            0 <= j < st.order.len() && st.routes[j].len() <= st.routes[i].len()
                ==> entries.contains_key(#[trigger] st.order[j]) && entries[st.order[j]]
                == st.found[st.order[j]],
    ensures
        chain(entries, st.order[i]) == Some(labels(start, st.routes[i])),
    decreases st.routes[i].len(),
{
    let s = st.order[i];
    let route = st.routes[i];
    assert(settled(st, start, i));
    assert(entries.contains_key(st.order[i]));
    match st.found[s] {
        None => {},
        Some((from, by)) => {
            let k = st.rank[from];
            let rest = entries.remove(s);
            assert(settled(st, start, k));
            assert forall|j: int|
                0 <= j < st.order.len() && st.routes[j].len() <= st.routes[k].len() implies rest.contains_key(
                #[trigger] st.order[j],
            ) && rest[st.order[j]] == st.found[st.order[j]] by {
                assert(settled(st, start, j));
            }
            chain_follows_route(st, start, rest, k);
            assert(labels(start, route) == labels(start, route.drop_last()).push(by));
        },
    }
}

/// The states among which a search from `start` expands: those within as
/// many steps as some solution has, or every reachable state where there is
/// no solution.
pub open spec fn arena<P: Puzzle>(start: P) -> Set<P> {
    if solvable(start) {
        within(start, (choose|route: Seq<int>| solves(start, route)).len())
    } else {
        reachable(start)
    }
}

/// The arena of a search that comes to an end is finite.
pub proof fn arena_finite<P: Puzzle>(start: P)
    requires
        solvable(start) || reachable(start).finite(),
    ensures
        arena(start).finite(),
{
    if solvable(start) {
        within_finite(start, (choose|route: Seq<int>| solves(start, route)).len());
    }
}

/// The state waiting at the head lies in the arena.
pub proof fn head_in_arena<P: Puzzle>(st: Progress<P>, start: P)
    requires
        underway(st, start, 0),
        st.head < st.order.len(),
    ensures
        arena(start).contains(st.order[st.head]),
{
    assert(settled(st, start, st.head));
    if solvable(start) {
        let w = choose|route: Seq<int>| solves(start, route);
        head_is_least(st, start, w);
    }
}

/// States listed once each, all from a finite set, are no more than the set has.
pub proof fn expanded_fit<P: Puzzle>(st: Progress<P>, start: P, among: Set<P>, n: int)
    requires
        consistent(st, start),
        0 <= n <= st.order.len(),
        among.finite(),
        forall|i: int| 0 <= i < n ==> among.contains(#[trigger] st.order[i]),
    ensures
        n <= among.len(),
    decreases n,
{
    if n > 0 {
        let last = st.order[n - 1];
        assert forall|i: int| 0 <= i < n - 1 implies among.remove(last).contains(
            #[trigger] st.order[i],
        ) by {
            assert(settled(st, start, i));
            assert(settled(st, start, n - 1));
        }
        expanded_fit(st, start, among.remove(last), n - 1);
    }
}

/// The first solution from `start`, as the moves that label it and the
/// solved state it leads to; `None` where there is none.
pub open spec fn shortest<P: Puzzle>(start: P) -> Option<(Seq<P::Move>, P)> {
    if exists|route: Seq<int>| first_solution(start, route) {
        let route = choose|route: Seq<int>| first_solution(start, route);
        Some((labels(start, route), arrive(start, route).unwrap()))
    } else {
        None
    }
}

/// Where a first solution is known, it is the one that `shortest` speaks of.
pub proof fn shortest_is<P: Puzzle>(start: P, route: Seq<int>)
    requires
        first_solution(start, route),
    ensures
        shortest(start) == Some((labels(start, route), arrive(start, route).unwrap())),
{
    let chosen = choose|route: Seq<int>| first_solution(start, route);
    first_solution_unique(start, chosen, route);
}

/// Solves a puzzle by breadth-first search with hashing of states.
///
/// Returns `Some((ms, p))` if `p0` can be solved: `ms` is then a shortest
/// sequence of moves from `p0` to a solved state, and `p` the solved state it
/// leads to. Among the shortest sequences it is the one that takes, at the
/// first state where they part, the transition enumerated earliest. Returns
/// `None` if no sequence of moves solves `p0`.
///
/// The search ends when a solution exists or when only finitely many states
/// can be reached from `p0`; the precondition asks for one of the two
/// ([`crate::route::reachable_confined`] shows the second from a finite set
/// of states that the transitions do not leave). States must hash and
/// compare as hash-map keys do, and duplicate faithfully.
pub fn solve<P>(p0: P) -> (r: Option<(Vec<P::Move>, P)>) where
    P: Puzzle + Eq + Hash + Clone,
    P::Move: Clone,

    requires
        obeys_key_model::<P>(),
        duplicates_faithfully::<P>(),
        solvable(p0) || reachable(p0).finite(),
    ensures
        match r {
            Some((ms, p)) => shortest(p0) == Some((ms@, p)),
            None => shortest(p0) is None,
        },
        r is Some <==> solvable(p0),
        r matches Some((ms, p)) ==> {
            &&& p.goal()
            &&& exists|route: Seq<int>|
                first_solution(p0, route) && arrive(p0, route) == Some(p) && labels(p0, route)
                    == ms@
            &&& forall|other: Seq<int>| #[trigger] solves(p0, other) ==> ms@.len() <= other.len()
        },
        p0.goal() ==> (r matches Some((ms, p)) && ms@.len() == 0 && p == p0),
{
    let mut hash_map = HashMap::<P, Option<(P, P::Move)>>::new();
    let mut queue: VecDeque<P> = VecDeque::new();
    queue.push_back(p0.clone());
    hash_map.insert(p0.clone(), None);
    let ghost mut st = begun(p0);
    proof {
        begun_underway(p0);
        arena_finite(p0);
        assert(hash_map@ =~= st.found);
        assert(queue@ =~= st.order.subrange(0, 1));
    }
    loop
        invariant
            obeys_key_model::<P>(),
            duplicates_faithfully::<P>(),
            underway(st, p0, 0),
            hash_map@ == st.found,
            queue@ == st.order.subrange(st.head, st.order.len() as int),
            arena(p0).finite(),
            forall|i: int| 0 <= i < st.head ==> arena(p0).contains(#[trigger] st.order[i]),
        decreases arena(p0).len() - st.head,
    {
        let p = match queue.pop_front() {
            Some(v) => v,
            None => {
                proof {
                    exhausted(st, p0);
                    if p0.goal() {
                        assert(solves(p0, Seq::<int>::empty()));
                    }
                }
                return None;
            },
        };
        proof {
            assert(p == st.order[st.head]);
            head_in_arena(st, p0);
            expanded_fit(st, p0, arena(p0), st.head + 1);
        }
        if p.is_goal() {
            let last = p.clone();
            proof {
                assert forall|j: int| 0 <= j < st.order.len() implies st.found.contains_key(
                    #[trigger] st.order[j],
                ) by {
                    assert(settled(st, p0, j));
                }
                chain_follows_route(st, p0, st.found, st.head);
            }
            let ms = match backtrack(hash_map, last) {
                Some(vec) => vec,
                None => return None,
            };
            proof {
                let route = st.routes[st.head];
                head_solves(st, p0);
                shortest_is(p0, route);
                assert(settled(st, p0, st.head));
                crate::route::labels_len(p0, route);
                assert forall|other: Seq<int>| #[trigger] solves(p0, other) implies ms@.len()
                    <= other.len() by {
                    crate::route::first_solution_shortest(p0, route, other);
                }
                if p0.goal() {
                    assert(solves(p0, Seq::<int>::empty()));
                }
            }
            return Some((ms, p));
        }
        let successors = p.next();
        let ghost expanding = st.head;
        proof {
            assert(queue@ =~= st.order.subrange(st.head + 1, st.order.len() as int));
        }
        for e in it: successors
            invariant
                obeys_key_model::<P>(),
                duplicates_faithfully::<P>(),
                it.seq() == p.successors(),
                st.head == expanding,
                st.head < st.order.len(),
                p == st.order[st.head],
                !p.goal(),
                underway(st, p0, it.index() as int),
                hash_map@ == st.found,
                queue@ == st.order.subrange(st.head + 1, st.order.len() as int),
                st.head + 1 <= arena(p0).len(),
                forall|i: int| 0 <= i <= st.head ==> arena(p0).contains(#[trigger] st.order[i]),
        {
            let (m, puzz) = e;
            let ghost k = it.index() as int;
            if !hash_map.contains_key(&puzz) {
                proof {
                    noted_underway(st, p0, puzz, m, k);
                    let ghost before = st;
                    st = noted(st, puzz, m, k);
                    assert(before.order.subrange(before.head + 1, before.order.len() as int).push(
                        puzz,
                    ) =~= st.order.subrange(st.head + 1, st.order.len() as int));
                }
                hash_map.insert(puzz.clone(), Some((p.clone(), m)));
                queue.push_back(puzz);
            } else {
                proof {
                    passed_underway(st, p0, k);
                }
            }
        }
        proof {
            moved_on_underway(st, p0);
            st = moved_on(st);
        }
    }
}

} // verus!
