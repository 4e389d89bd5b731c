//! Reading a move sequence back out of a discovery map.
//!
//! A discovery map records, for each state a search has met, how the search
//! first got there: `None` for the state it started from, and otherwise the
//! state it came from together with the move it took.

use vstd::prelude::*;
use std::collections::HashMap;
use std::hash::Hash;
use vstd::std_specs::hash::obeys_key_model;
use crate::state::Puzzle;

verus! {

/// The moves along the predecessor entries of `found` that lead to `at`,
/// from the entry without predecessor onwards: the move into `at` comes
/// last. Every entry is used at most once on the way back from `at`, so a
/// walk that comes back to a state it has left has no result, nor has one
/// that meets a state with no entry.
pub open spec fn chain<P: Puzzle>(found: Map<P, Option<(P, P::Move)>>, at: P) -> Option<
    Seq<P::Move>,
>
    decreases found.dom().len(),
    when found.dom().finite()
{
    if !found.contains_key(at) {
        None
    } else {
        match found[at] {
            None => Some(Seq::empty()),
            Some((from, by)) => match chain(found.remove(at), from) {
                Some(earlier) => Some(earlier.push(by)),
                None => None,
            },
        }
    }
}

/// What a walk yields in all, given what the rest of the walk yields and
/// the moves collected so far, latest first.
pub open spec fn completed<M>(rest: Option<Seq<M>>, collected: Seq<M>) -> Option<Seq<M>> {
    match rest {
        Some(earlier) => Some(earlier + collected.reverse()),
        None => None,
    }
}

/// Reconstructs the moves that lead to `last` from the predecessor entries of
/// `hash_map`: walks the entries from `last` back to the state without
/// predecessor, and returns the moves met in the order in which they are
/// played, the move into `last` last. The map is used up. Returns `None`
/// where the walk meets a state that has no entry.
pub fn backtrack<P>(hash_map: HashMap<P, Option<(P, P::Move)>>, last: P) -> (r: Option<
    Vec<P::Move>,
>) where P: Puzzle + Eq + Hash + Clone, P::Move: Clone
    requires
        obeys_key_model::<P>(),
    ensures
        match r {
            Some(moves) => chain(hash_map@, last) == Some(moves@),
            None => chain(hash_map@, last) is None,
        },
{
    let mut left = hash_map;
    let mut at = last;
    let mut vec: Vec<P::Move> = Vec::new();
    proof {
        if let Some(all) = chain(left@, at) {
            assert(all + vec@.reverse() =~= all);
        }
    }
    loop
        invariant
            obeys_key_model::<P>(),
            left@.dom().finite(),
            chain(hash_map@, last) == completed(chain(left@, at), vec@),
        decreases left@.dom().len(),
    {
        let ghost before = left@;
        let ghost here = at;
        let ghost collected = vec@;
        let (predecessor, m) = match left.remove(&at) {
            Some(pm_o) => match pm_o {
                Some(pm) => pm,
                None => {
                    let moves = reversed(vec);
                    assert(Seq::<P::Move>::empty() + collected.reverse() =~= moves@);
                    return Some(moves);
                },
            },
            None => {
                return None;
            },
        };
        vec.push(m);
        at = predecessor;
        proof {
            assert(left@ == before.remove(here));
            assert(before[here] == Some((at, m)));
            if let Some(earlier) = chain(left@, at) {
                assert(earlier.push(m) + collected.reverse() =~= earlier + collected.push(
                    m,
                ).reverse());
            }
        }
    }
}

/// The same items in the opposite order.
fn reversed<T>(items: Vec<T>) -> (r: Vec<T>)
    ensures
        r@ == items@.reverse(),
{
    let mut left = items;
    let mut out: Vec<T> = Vec::new();
    while left.len() > 0
        invariant
            left@.len() <= items@.len(),
            out@.len() == items@.len() - left@.len(),
            left@ == items@.take(left@.len() as int),
            forall|i: int| 0 <= i < out@.len() ==> out@[i] == items@[items@.len() - 1 - i],
        decreases left@.len(),
    {
        let ghost n = left@.len();
        let item = left.pop().unwrap();
        out.push(item);
        proof {
            assert(left@ =~= items@.take(n - 1));
        }
    }
    proof {
        assert(out@ =~= items@.reverse());
    }
    out
}

} // verus!
