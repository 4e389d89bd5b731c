//! Replaying a sequence of moves.
//!
//! A move is played from a state by taking the first of the state's
//! transitions whose label compares equal to it. A sequence of moves is
//! accepted when every move of it can be played in turn and the state
//! reached at the end is solved.

use vstd::prelude::*;
use vstd::std_specs::cmp::PartialEqSpec;
use crate::state::Puzzle;

verus! {

/// The position of the first of `options` whose move compares equal to `m`.
pub open spec fn first_match<P: Puzzle>(options: Seq<(P::Move, P)>, m: P::Move) -> Option<
    int,
> where P::Move: PartialEq
    decreases options.len(),
{
    if options.len() == 0 {
        None
    } else {
        match first_match::<P>(options.drop_last(), m) {
            Some(i) => Some(i),
            None => if m.eq_spec(&options.last().0) {
                Some(options.len() - 1)
            } else {
                None
            },
        }
    }
}

/// The state reached by playing `m` from `s`, or `None` where `s` has no
/// transition for it.
pub open spec fn step<P: Puzzle>(s: P, m: P::Move) -> Option<P> where P::Move: PartialEq {
    match first_match::<P>(s.successors(), m) {
        Some(i) => Some(s.successors()[i].1),
        None => None,
    }
}

/// The state reached by playing `ms` in order from `start`, or `None` where
/// one of them cannot be played at its turn.
pub open spec fn run<P: Puzzle>(start: P, ms: Seq<P::Move>) -> Option<P> where P::Move: PartialEq
    decreases ms.len(),
{
    if ms.len() == 0 {
        Some(start)
    } else {
        match run(start, ms.drop_last()) {
            Some(mid) => step(mid, ms.last()),
            None => None,
        }
    }
}

/// The solved state that `ms` leads to from `start`; `None` where a move
/// cannot be played or the state reached is not solved.
pub open spec fn verdict<P: Puzzle>(start: P, ms: Seq<P::Move>) -> Option<P> where
    P::Move: PartialEq,
 {
    match run(start, ms) {
        Some(end) => if end.goal() {
            Some(end)
        } else {
            None
        },
        None => None,
    }
}

/// Each transition out of `s` is played back by its own move: playing the
/// move that labels it leads where it leads. This fails where an earlier
/// transition carries a move that compares equal and leads elsewhere, or
/// where a move does not compare equal to itself.
pub open spec fn plays_back<P: Puzzle>(s: P) -> bool where P::Move: PartialEq {
    forall|j: int|
        0 <= j < s.successors().len() ==> step(s, (#[trigger] s.successors()[j]).0) == Some(
            s.successors()[j].1,
        )
}

/// The first match is at `i` exactly when `i` matches and nothing before it does.
pub proof fn first_match_at<P: Puzzle>(options: Seq<(P::Move, P)>, m: P::Move, i: int) where
    P::Move: PartialEq,

    ensures
        first_match::<P>(options, m) == Some(i) <==> {
            &&& 0 <= i < options.len()
            &&& m.eq_spec(&options[i].0)
            &&& forall|j: int| 0 <= j < i ==> !m.eq_spec(&#[trigger] options[j].0)
        },
    decreases options.len(),
{
    if options.len() > 0 {
        let shorter = options.drop_last();
        first_match_at::<P>(shorter, m, i);
        match first_match::<P>(shorter, m) {
            Some(k) => {
                first_match_at::<P>(shorter, m, k);
                assert(shorter[k] == options[k]);
            },
            None => {
                first_match_none::<P>(shorter, m);
                assert forall|j: int| 0 <= j < options.len() - 1 implies !m.eq_spec(
                    &#[trigger] options[j].0,
                ) by {
                    assert(shorter[j] == options[j]);
                }
            },
        }
        if 0 <= i < shorter.len() {
            assert(shorter[i] == options[i]);
            assert forall|j: int| 0 <= j < i implies shorter[j] == options[j] by {}
        }
    }
}

/// There is no match exactly when nothing matches.
pub proof fn first_match_none<P: Puzzle>(options: Seq<(P::Move, P)>, m: P::Move) where
    P::Move: PartialEq,

    ensures
        first_match::<P>(options, m) is None <==> forall|j: int|
            0 <= j < options.len() ==> !m.eq_spec(&#[trigger] options[j].0),
    decreases options.len(),
{
    if options.len() > 0 {
        let shorter = options.drop_last();
        first_match_none::<P>(shorter, m);
        assert forall|j: int| 0 <= j < shorter.len() implies shorter[j] == options[j] by {}
        match first_match::<P>(shorter, m) {
            Some(k) => {
                first_match_at::<P>(shorter, m, k);
                assert(shorter[k] == options[k]);
            },
            None => {},
        }
    }
}

/// Once a move cannot be played, no continuation is accepted.
pub proof fn run_stuck<P: Puzzle>(start: P, ms: Seq<P::Move>, k: int) where P::Move: PartialEq
    requires
        0 <= k <= ms.len(),
        run(start, ms.take(k)) is None,
    ensures
        run(start, ms) is None,
    decreases ms.len() - k,
{
    if k < ms.len() {
        assert(ms.take(k + 1).drop_last() =~= ms.take(k));
        run_stuck(start, ms, k + 1);
    } else {
        assert(ms.take(k) =~= ms);
    }
}

/// Plays one move: returns the state behind the first transition out of `p`
/// whose move compares equal to `m`, or `None` if there is none.
pub fn advance<P>(p: &P, m: &P::Move) -> (r: Option<P>) where P: Puzzle, P::Move: Eq
    requires
        <P::Move>::obeys_eq_spec(),
    ensures
        r == step(*p, *m),
{
    let mut options = p.next();
    let mut i: usize = 0;
    while i < options.len()
        invariant
            <P::Move>::obeys_eq_spec(),
            options@ == p.successors(),
            i <= options.len(),
            forall|j: int| 0 <= j < i ==> !m.eq_spec(&#[trigger] options@[j].0),
        decreases options.len() - i,
    {
        if *m == options[i].0 {
            proof {
                first_match_at::<P>(options@, *m, i as int);
            }
            let (_, pp) = options.swap_remove(i);
            return Some(pp);
        }
        i = i + 1;
    }
    proof {
        first_match_none::<P>(options@, *m);
    }
    None
}

/// Verifies that a sequence of moves solves a puzzle.
///
/// Returns `Some(p)` if every move of `ms` can be played in turn from `p0`
/// and `p`, the state they lead to, is solved. Returns `None` if some move
/// cannot be played at its turn, or if the state reached is not solved.
pub fn check<P>(p0: P, ms: &[P::Move]) -> (r: Option<P>) where P: Puzzle, P::Move: Eq
    requires
        <P::Move>::obeys_eq_spec(),
    ensures
        r == verdict(p0, ms@),
{
    let mut p = p0;
    let mut i: usize = 0;
    while i < ms.len()
        invariant
            <P::Move>::obeys_eq_spec(),
            i <= ms@.len(),
            run(p0, ms@.take(i as int)) == Some(p),
        decreases ms@.len() - i,
    {
        proof {
            assert(ms@.take(i + 1).drop_last() =~= ms@.take(i as int));
        }
        match advance(&p, &ms[i]) {
            Some(pp) => {
                p = pp;
            },
            None => {
                proof {
                    run_stuck(p0, ms@, i + 1);
                }
                return None;
            },
        }
        i = i + 1;
    }
    proof {
        assert(ms@.take(i as int) =~= ms@);
    }
    if p.is_goal() {
        Some(p)
    } else {
        None
    }
}

} // verus!
