//! What holds between searching and replaying.

use vstd::prelude::*;
use vstd::std_specs::cmp::PartialEqSpec;
use crate::replay::{first_match, first_match_at, first_match_none, plays_back, run, run_stuck, step, verdict};
use crate::route::{
    arrive,
    arrive_partway,
    first_solution,
    first_solution_exists,
    labels,
    labels_len,
    reachable,
    solvable,
    solves,
};
use crate::search::{shortest, shortest_is};
use crate::state::Puzzle;

verus! {

/// Moves compare equal exactly when they are the same move.
pub open spec fn compares_by_identity<M: PartialEq>() -> bool {
    forall|a: M, b: M| #[trigger] a.eq_spec(&b) <==> a == b
}

/// No two transitions out of `s` carry the same move to different states.
pub open spec fn unambiguous<P: Puzzle>(s: P) -> bool {
    forall|i: int, j: int|
        0 <= i < s.successors().len() && 0 <= j < s.successors().len() && (
        #[trigger] s.successors()[i]).0 == (#[trigger] s.successors()[j]).0
            ==> s.successors()[i].1 == s.successors()[j].1
}

/// The route that replaying `ms` from `start` takes: at each move the first
/// transition that matches it. Meaningful where every move can be played.
pub open spec fn trail<P: Puzzle>(start: P, ms: Seq<P::Move>) -> Seq<int> where
    P::Move: PartialEq,

    decreases ms.len(),
{
    if ms.len() == 0 {
        Seq::empty()
    } else {
        match run(start, ms.drop_last()) {
            Some(mid) => match first_match::<P>(mid.successors(), ms.last()) {
                Some(i) => trail(start, ms.drop_last()).push(i),
                None => trail(start, ms.drop_last()),
            },
            None => trail(start, ms.drop_last()),
        }
    }
}

/// A search succeeds exactly when some route leads from the start to a
/// solved state.
pub proof fn shortest_exists_iff_solvable<P: Puzzle>(start: P)
    ensures
        shortest(start) is Some <==> solvable(start),
{
    if solvable(start) {
        first_solution_exists(start);
    }
    if shortest(start) is Some {
        let route = choose|route: Seq<int>| first_solution(start, route);
        assert(solves(start, route));
    }
}

/// When a search succeeds, its result is the first solution: the moves label
/// it, one move for each step, and the state it returns ends it and is solved.
pub proof fn shortest_is_first_solution<P: Puzzle>(start: P, ms: Seq<P::Move>, end: P)
    requires
        shortest(start) == Some((ms, end)),
    ensures
        end.goal(),
        exists|route: Seq<int>|
            first_solution(start, route) && arrive(start, route) == Some(end) && labels(
                start,
                route,
            ) == ms && route.len() == ms.len(),
{
    let route = choose|route: Seq<int>| first_solution(start, route);
    labels_len(start, route);
}

/// Replaying moves that can all be played follows a route of as many steps
/// to the same state.
pub proof fn run_takes_trail<P: Puzzle>(start: P, ms: Seq<P::Move>) where P::Move: PartialEq
    requires
        run(start, ms) is Some,
    ensures
        trail(start, ms).len() == ms.len(),
        arrive(start, trail(start, ms)) == run(start, ms),
    decreases ms.len(),
{
    if ms.len() > 0 {
        let mid = run(start, ms.drop_last()).unwrap();
        run_takes_trail(start, ms.drop_last());
        let i = first_match::<P>(mid.successors(), ms.last()).unwrap();
        first_match_at::<P>(mid.successors(), ms.last(), i);
        let before = trail(start, ms.drop_last());
        assert(before.push(i).drop_last() =~= before);
    }
}

/// When a search succeeds, no route to a solved state has fewer steps than
/// the search returns moves.
pub proof fn no_shorter_route<P: Puzzle>(start: P, ms: Seq<P::Move>, end: P, other: Seq<int>)
    requires
        shortest(start) == Some((ms, end)),
        solves(start, other),
    ensures
        ms.len() <= other.len(),
{
    shortest_is_first_solution(start, ms, end);
}

/// When a search succeeds, no sequence of moves that a replay accepts is
/// shorter than the one the search returns.
pub proof fn no_shorter_accepted<P: Puzzle>(
    start: P,
    ms: Seq<P::Move>,
    end: P,
    other: Seq<P::Move>,
) where P::Move: PartialEq
    requires
        shortest(start) == Some((ms, end)),
        verdict(start, other) is Some,
    ensures
        ms.len() <= other.len(),
{
    run_takes_trail(start, other);
    no_shorter_route(start, ms, end, trail(start, other));
}

/// Moves that compare by identity play back every transition out of a state
/// whose transitions they label unambiguously.
pub proof fn identity_plays_back<P: Puzzle>(s: P) where P::Move: PartialEq
    requires
        compares_by_identity::<P::Move>(),
        unambiguous(s),
    ensures
        plays_back(s),
{
    assert forall|j: int| 0 <= j < s.successors().len() implies step(
        s,
        (#[trigger] s.successors()[j]).0,
    ) == Some(s.successors()[j].1) by {
        let m = s.successors()[j].0;
        first_match_none::<P>(s.successors(), m);
        let i = first_match::<P>(s.successors(), m).unwrap();
        first_match_at::<P>(s.successors(), m, i);
        assert(s.successors()[i].0 == s.successors()[j].0);
    }
}

/// Replaying the moves that label a route follows the route, where every
/// state that the route leaves plays back its transitions.
pub proof fn replay_follows_route<P: Puzzle>(start: P, route: Seq<int>) where P::Move: PartialEq
    requires
        arrive(start, route) is Some,
        forall|k: int|
            0 <= k < route.len() ==> plays_back((#[trigger] arrive(start, route.take(k))).unwrap()),
    ensures
        run(start, labels(start, route)) == arrive(start, route),
    decreases route.len(),
{
    if route.len() > 0 {
        let before = route.drop_last();
        let j = route.last();
        assert(before =~= route.take(route.len() - 1));
        let mid = arrive(start, before).unwrap();
        assert forall|k: int| 0 <= k < before.len() implies plays_back(
            (#[trigger] arrive(start, before.take(k))).unwrap(),
        ) by {
            assert(before.take(k) =~= route.take(k));
        }
        replay_follows_route(start, before);
        assert(labels(start, route).drop_last() =~= labels(start, before));
        assert(plays_back(mid));
        assert(step(mid, mid.successors()[j].0) == Some(mid.successors()[j].1));
    }
}

/// When a search succeeds, a replay accepts the moves it returns and reaches
/// the state it returns, where every state that can be reached plays back
/// its transitions. Without that a replay, which plays a move by the first
/// transition that matches it, may leave the route that the search found.
pub proof fn shortest_is_accepted<P: Puzzle>(start: P, ms: Seq<P::Move>, end: P) where
    P::Move: PartialEq,

    requires
        shortest(start) == Some((ms, end)),
        forall|s: P| #[trigger] reachable(start).contains(s) ==> plays_back(s),
    ensures
        verdict(start, ms) == Some(end),
{
    shortest_is_first_solution(start, ms, end);
    let route = choose|route: Seq<int>|
        first_solution(start, route) && arrive(start, route) == Some(end) && labels(start, route)
            == ms && route.len() == ms.len();
    assert forall|k: int| 0 <= k < route.len() implies plays_back(
        (#[trigger] arrive(start, route.take(k))).unwrap(),
    ) by {
        arrive_partway(start, route, k);
        assert(reachable(start).contains(arrive(start, route.take(k)).unwrap()));
    }
    replay_follows_route(start, route);
}

/// A replay rejects a sequence of moves as soon as one of them cannot be
/// played, whatever follows.
pub proof fn stuck_prefix_rejected<P: Puzzle>(start: P, played: Seq<P::Move>, rest: Seq<P::Move>) where
    P::Move: PartialEq,

    requires
        run(start, played) is None,
    ensures
        verdict(start, played + rest) is None,
{
    assert((played + rest).take(played.len() as int) =~= played);
    run_stuck(start, played + rest, played.len() as int);
}

/// What a replay accepts is a solution: the state it returns is solved, and
/// the moves are played along a route to it.
pub proof fn accepted_solves<P: Puzzle>(start: P, ms: Seq<P::Move>, end: P) where
    P::Move: PartialEq,

    requires
        verdict(start, ms) == Some(end),
    ensures
        end.goal(),
        arrive(start, trail(start, ms)) == Some(end),
        solvable(start),
{
    run_takes_trail(start, ms);
    assert(solves(start, trail(start, ms)));
}

/// From a solved state the search returns no moves and that state.
pub proof fn shortest_from_solved<P: Puzzle>(start: P)
    requires
        start.goal(),
    ensures
        shortest(start) == Some((Seq::<P::Move>::empty(), start)),
{
    let none = Seq::<int>::empty();
    assert(solves(start, none));
    assert forall|other: Seq<int>| #[trigger] solves(start, other) implies crate::order::at_most(
        none,
        other,
    ) by {
        if other.len() == 0 {
            assert(other =~= none);
        }
    }
    assert(first_solution(start, none));
    shortest_is(start, none);
}

} // verus!
