//! Routes through a puzzle's state space.
//!
//! A route names a walk from a start state by the positions of the
//! transitions it takes: its first entry is an index into the start state's
//! successors, its second an index into the successors of the state reached
//! by the first, and so on. Where a route leads and which moves label it are
//! functions of the start state and the route.

use vstd::prelude::*;
use crate::order::{at_most, counts_from_zero, least_route, precedes_asymmetric};
use crate::state::Puzzle;

verus! {

/// The state behind the `i`-th transition out of `s`, if there is one.
pub open spec fn follow<P: Puzzle>(s: P, i: int) -> Option<P> {
    if 0 <= i < s.successors().len() {
        Some(s.successors()[i].1)
    } else {
        None
    }
}

/// The state a route leads to from `start`, or `None` where some step of it
/// names a transition that does not exist.
pub open spec fn arrive<P: Puzzle>(start: P, route: Seq<int>) -> Option<P>
    decreases route.len(),
{
    if route.len() == 0 {
        Some(start)
    } else {
        match arrive(start, route.drop_last()) {
            Some(mid) => follow(mid, route.last()),
            None => None,
        }
    }
}

/// The moves that label the steps of a route, in order. Steps from the first
/// one that does not exist onwards contribute nothing.
pub open spec fn labels<P: Puzzle>(start: P, route: Seq<int>) -> Seq<P::Move>
    decreases route.len(),
{
    if route.len() == 0 {
        Seq::empty()
    } else {
        let before = labels(start, route.drop_last());
        match arrive(start, route.drop_last()) {
            Some(mid) => if 0 <= route.last() < mid.successors().len() {
                before.push(mid.successors()[route.last()].0)
            } else {
                before
            },
            None => before,
        }
    }
}

/// The route leads from `start` to a solved state.
pub open spec fn solves<P: Puzzle>(start: P, route: Seq<int>) -> bool {
    match arrive(start, route) {
        Some(end) => end.goal(),
        None => false,
    }
}

/// Some route leads from `start` to a solved state.
pub open spec fn solvable<P: Puzzle>(start: P) -> bool {
    exists|route: Seq<int>| solves(start, route)
}

/// The route solves the puzzle and no solving route comes before it: none is
/// shorter, and among the shortest it takes the earliest transition wherever
/// it parts from another.
pub open spec fn first_solution<P: Puzzle>(start: P, route: Seq<int>) -> bool {
    &&& solves(start, route)
    &&& forall|other: Seq<int>| #[trigger] solves(start, other) ==> at_most(route, other)
}

/// The states that some route reaches from `start`.
pub open spec fn reachable<P: Puzzle>(start: P) -> Set<P> {
    Set::new(|s: P| exists|route: Seq<int>| arrive(start, route) == Some(s))
}

/// The states that a route of at most `n` steps reaches from `start`.
pub open spec fn within<P: Puzzle>(start: P, n: nat) -> Set<P> {
    Set::new(|s: P| exists|route: Seq<int>| route.len() <= n && arrive(start, route) == Some(s))
}

/// The states one transition away from `s`.
pub open spec fn neighbours<P: Puzzle>(s: P) -> Set<P> {
    Set::new(|t: P| exists|i: int| #[trigger] follow(s, i) == Some(t))
}

/// The states one transition away from some state of `from`.
pub open spec fn fringe<P: Puzzle>(from: Set<P>) -> Set<P> {
    Set::new(|t: P| exists|s: P| from.contains(s) && #[trigger] neighbours(s).contains(t))
}

/// Extending a route by one step follows one more transition.
pub proof fn arrive_push<P: Puzzle>(start: P, route: Seq<int>, i: int)
    ensures
        arrive(start, route.push(i)) == match arrive(start, route) {
            Some(mid) => follow(mid, i),
            None => None,
        },
{
    assert(route.push(i).drop_last() =~= route);
}

/// A route that leads somewhere leads somewhere after each number of steps.
pub proof fn arrive_partway<P: Puzzle>(start: P, route: Seq<int>, k: int)
    requires
        arrive(start, route) is Some,
        0 <= k <= route.len(),
    ensures
        arrive(start, route.take(k)) is Some,
    decreases route.len() - k,
{
    if k < route.len() {
        arrive_partway(start, route, k + 1);
        assert(route.take(k + 1).drop_last() =~= route.take(k));
    } else {
        assert(route.take(k) =~= route);
    }
}

/// A route that leads somewhere has one move for each of its steps.
pub proof fn labels_len<P: Puzzle>(start: P, route: Seq<int>)
    requires
        arrive(start, route) is Some,
    ensures
        labels(start, route).len() == route.len(),
    decreases route.len(),
{
    if route.len() > 0 {
        labels_len(start, route.drop_last());
    }
}

/// At most one route is the first solution.
pub proof fn first_solution_unique<P: Puzzle>(start: P, a: Seq<int>, b: Seq<int>)
    requires
        first_solution(start, a),
        first_solution(start, b),
    ensures
        a == b,
{
    if a != b {
        precedes_asymmetric(a, b);
    }
}

/// A route that leads somewhere names transitions by positions from zero up.
pub proof fn arrive_counts_from_zero<P: Puzzle>(start: P, route: Seq<int>)
    requires
        arrive(start, route) is Some,
    ensures
        counts_from_zero(route),
    decreases route.len(),
{
    if route.len() > 0 {
        arrive_counts_from_zero(start, route.drop_last());
        assert forall|k: int| 0 <= k < route.len() implies 0 <= #[trigger] route[k] by {
            if k < route.len() - 1 {
                assert(route[k] == route.drop_last()[k]);
            }
        }
    }
}

/// Where the puzzle can be solved at all, it has a first solution.
pub proof fn first_solution_exists<P: Puzzle>(start: P)
    requires
        solvable(start),
    ensures
        exists|route: Seq<int>| first_solution(start, route),
{
    let witness = choose|route: Seq<int>| solves(start, route);
    let solutions = Set::new(|route: Seq<int>| solves(start, route));
    assert(solutions.contains(witness));
    assert forall|a: Seq<int>| #[trigger] solutions.contains(a) implies counts_from_zero(a) by {
        arrive_counts_from_zero(start, a);
    }
    least_route(solutions, witness);
    let least = choose|least: Seq<int>|
        solutions.contains(least) && forall|a: Seq<int>| #[trigger]
            solutions.contains(a) ==> at_most(least, a);
    assert forall|other: Seq<int>| #[trigger] solves(start, other) implies at_most(
        least,
        other,
    ) by {
        assert(solutions.contains(other));
    }
    assert(first_solution(start, least));
}

/// A first solution is a shortest one.
pub proof fn first_solution_shortest<P: Puzzle>(start: P, route: Seq<int>, other: Seq<int>)
    requires
        first_solution(start, route),
        solves(start, other),
    ensures
        route.len() <= other.len(),
{
}

/// Where a finite set of states holds `start` and every successor of each of
/// its states, only states of that set can be reached from `start`, so they
/// are finitely many.
pub proof fn reachable_confined<P: Puzzle>(start: P, closed: Set<P>)
    requires
        closed.finite(),
        closed.contains(start),
        forall|s: P, i: int|
            closed.contains(s) && 0 <= i < s.successors().len() ==> closed.contains(
                (#[trigger] s.successors()[i]).1,
            ),
    ensures
        reachable(start).subset_of(closed),
        reachable(start).finite(),
{
    assert forall|s: P| reachable(start).contains(s) implies closed.contains(s) by {
        let route = choose|route: Seq<int>| arrive(start, route) == Some(s);
        arrive_confined(start, closed, route);
    }
    vstd::set_lib::lemma_set_subset_finite(closed, reachable(start));
}

/// A route from a state of a set that holds every successor of each of its
/// states leads to a state of that set.
pub proof fn arrive_confined<P: Puzzle>(start: P, closed: Set<P>, route: Seq<int>)
    requires
        closed.contains(start),
        forall|s: P, i: int|
            closed.contains(s) && 0 <= i < s.successors().len() ==> closed.contains(
                (#[trigger] s.successors()[i]).1,
            ),
        arrive(start, route) is Some,
    ensures
        closed.contains(arrive(start, route).unwrap()),
    decreases route.len(),
{
    if route.len() > 0 {
        arrive_confined(start, closed, route.drop_last());
        let mid = arrive(start, route.drop_last()).unwrap();
        assert(closed.contains(mid.successors()[route.last()].1));
    }
}

/// A state has finitely many neighbours.
pub proof fn neighbours_finite<P: Puzzle>(s: P)
    ensures
        neighbours(s).finite(),
{
    let targets = s.successors().map_values(|e: (P::Move, P)| e.1);
    vstd::seq_lib::seq_to_set_is_finite(targets);
    assert forall|t: P| neighbours(s).contains(t) implies targets.to_set().contains(t) by {
        let i = choose|i: int| #[trigger] follow(s, i) == Some(t);
        assert(targets[i] == t);
    }
    vstd::set_lib::lemma_set_subset_finite(targets.to_set(), neighbours(s));
}

/// Finitely many states have finitely many states one transition away.
pub proof fn fringe_finite<P: Puzzle>(from: Set<P>)
    requires
        from.finite(),
    ensures
        fringe(from).finite(),
    decreases from.len(),
{
    if from.len() == 0 {
        assert(fringe(from) =~= Set::empty());
    } else {
        let s = from.choose();
        let rest = from.remove(s);
        fringe_finite(rest);
        neighbours_finite(s);
        assert forall|t: P| fringe(from).contains(t) implies fringe(rest).union(
            neighbours(s),
        ).contains(t) by {
            let via = choose|via: P| from.contains(via) && #[trigger] neighbours(via).contains(t);
            if via != s {
                assert(rest.contains(via));
            }
        }
        vstd::set_lib::lemma_set_subset_finite(fringe(rest).union(neighbours(s)), fringe(from));
    }
}

/// Only finitely many states lie within a given number of steps of a start
/// state, since each state has finitely many successors.
pub proof fn within_finite<P: Puzzle>(start: P, n: nat)
    ensures
        within(start, n).finite(),
    decreases n,
{
    if n == 0 {
        assert forall|s: P| within(start, 0).contains(s) implies set![start].contains(s) by {
            let route = choose|route: Seq<int>| route.len() <= 0 && arrive(start, route) == Some(s);
            assert(route.len() == 0);
        }
        vstd::set_lib::lemma_set_subset_finite(set![start], within(start, 0));
    } else {
        let nearer = within(start, (n - 1) as nat);
        within_finite(start, (n - 1) as nat);
        fringe_finite(nearer);
        assert forall|s: P| within(start, n).contains(s) implies nearer.union(
            fringe(nearer),
        ).contains(s) by {
            let route = choose|route: Seq<int>| route.len() <= n && arrive(start, route) == Some(s);
            if route.len() == n {
                let mid = arrive(start, route.drop_last()).unwrap();
                assert(nearer.contains(mid));
                assert(follow(mid, route.last()) == Some(s));
                assert(neighbours(mid).contains(s));
            } else {
                assert(nearer.contains(s));
            }
        }
        vstd::set_lib::lemma_set_subset_finite(nearer.union(fringe(nearer)), within(start, n));
    }
}

} // verus!
