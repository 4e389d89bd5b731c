//! The order in which breadth-first search meets routes: shorter first, and
//! among equally long ones by the earliest point of difference.

use vstd::prelude::*;

verus! {

/// `a` comes strictly before `b`: it is shorter, or equally long and smaller
/// at the first position where the two differ.
pub open spec fn precedes(a: Seq<int>, b: Seq<int>) -> bool
    decreases a.len(),
{
    if a.len() != b.len() {
        a.len() < b.len()
    } else if a.len() == 0 {
        false
    } else {
        precedes(a.drop_last(), b.drop_last()) || (a.drop_last() == b.drop_last() && a.last()
            < b.last())
    }
}

/// `a` is `b` or comes before it.
pub open spec fn at_most(a: Seq<int>, b: Seq<int>) -> bool {
    a == b || precedes(a, b)
}

/// Nothing comes before itself.
pub proof fn precedes_irreflexive(a: Seq<int>)
    ensures
        !precedes(a, a),
    decreases a.len(),
{
    if a.len() > 0 {
        precedes_irreflexive(a.drop_last());
    }
}

/// The order is transitive.
pub proof fn precedes_transitive(a: Seq<int>, b: Seq<int>, c: Seq<int>)
    requires
        precedes(a, b),
        precedes(b, c),
    ensures
        precedes(a, c),
    decreases a.len(),
{
    if a.len() == b.len() && b.len() == c.len() && a.len() > 0 {
        if precedes(a.drop_last(), b.drop_last()) && precedes(b.drop_last(), c.drop_last()) {
            precedes_transitive(a.drop_last(), b.drop_last(), c.drop_last());
        }
    }
}

/// No two routes come before each other.
pub proof fn precedes_asymmetric(a: Seq<int>, b: Seq<int>)
    requires
        precedes(a, b),
    ensures
        !precedes(b, a),
{
    if precedes(b, a) {
        precedes_transitive(a, b, a);
        precedes_irreflexive(a);
    }
}

/// Transitivity when the first step may be an equality.
pub proof fn at_most_then_precedes(a: Seq<int>, b: Seq<int>, c: Seq<int>)
    requires
        at_most(a, b),
        precedes(b, c),
    ensures
        precedes(a, c),
{
    if a != b {
        precedes_transitive(a, b, c);
    }
}

/// Transitivity of the non-strict order.
pub proof fn at_most_transitive(a: Seq<int>, b: Seq<int>, c: Seq<int>)
    requires
        at_most(a, b),
        at_most(b, c),
    ensures
        at_most(a, c),
{
    if a != b && b != c {
        precedes_transitive(a, b, c);
    }
}

/// Two extended routes compare by what they extend, and only then by the
/// steps added.
pub proof fn precedes_push(a: Seq<int>, i: int, b: Seq<int>, j: int)
    ensures
        precedes(a.push(i), b.push(j)) <==> precedes(a, b) || (a == b && i < j),
{
    assert(a.push(i).drop_last() =~= a);
    assert(b.push(j).drop_last() =~= b);
    if a.len() == b.len() {
        precedes_irreflexive(a);
    } else if a == b {
    }
}

/// Extending both sides by the same step keeps the non-strict order.
pub proof fn at_most_push(a: Seq<int>, b: Seq<int>, i: int)
    requires
        at_most(a, b),
    ensures
        at_most(a.push(i), b.push(i)),
{
    precedes_push(a, i, b, i);
}

/// Every entry of the route is zero or more.
pub open spec fn counts_from_zero(a: Seq<int>) -> bool {
    forall|k: int| 0 <= k < a.len() ==> 0 <= #[trigger] a[k]
}

/// A set of natural numbers that is not empty has a least member.
pub proof fn least_number(among: Set<int>, witness: int)
    requires
        among.contains(witness),
        forall|v: int| #[trigger] among.contains(v) ==> 0 <= v,
    ensures
        exists|least: int|
            among.contains(least) && forall|v: int| #[trigger] among.contains(v) ==> least <= v,
    decreases witness,
{
    if exists|v: int| among.contains(v) && v < witness {
        let smaller = choose|v: int| among.contains(v) && v < witness;
        least_number(among, smaller);
    } else {
        assert(among.contains(witness) && forall|v: int| #[trigger]
            among.contains(v) ==> witness <= v);
    }
}

/// Among routes of one length, with entries from zero up, there is one that
/// none of the others comes before.
pub proof fn least_of_length(among: Set<Seq<int>>, witness: Seq<int>)
    requires
        among.contains(witness),
        forall|a: Seq<int>| #[trigger]
            among.contains(a) ==> a.len() == witness.len() && counts_from_zero(a),
    ensures
        exists|least: Seq<int>|
            among.contains(least) && forall|a: Seq<int>| #[trigger]
                among.contains(a) ==> at_most(least, a),
    decreases witness.len(),
{
    if witness.len() == 0 {
        assert forall|a: Seq<int>| #[trigger] among.contains(a) implies at_most(witness, a) by {
            assert(a =~= witness);
        }
    } else {
        let stems = Set::new(
            |t: Seq<int>| exists|a: Seq<int>| among.contains(a) && #[trigger] a.drop_last() == t,
        );
        assert(stems.contains(witness.drop_last()));
        assert forall|t: Seq<int>| #[trigger] stems.contains(t) implies t.len()
            == witness.drop_last().len() && counts_from_zero(t) by {
            let a = choose|a: Seq<int>| among.contains(a) && #[trigger] a.drop_last() == t;
            assert forall|k: int| 0 <= k < t.len() implies 0 <= #[trigger] t[k] by {
                assert(t[k] == a[k]);
            }
        }
        least_of_length(stems, witness.drop_last());
        let stem = choose|least: Seq<int>|
            stems.contains(least) && forall|t: Seq<int>| #[trigger]
                stems.contains(t) ==> at_most(least, t);
        let from = choose|a: Seq<int>| among.contains(a) && #[trigger] a.drop_last() == stem;
        let ends = Set::new(|v: int| among.contains(stem.push(v)));
        assert(from =~= stem.push(from.last()));
        assert(ends.contains(from.last()));
        assert forall|v: int| #[trigger] ends.contains(v) implies 0 <= v by {
            assert(stem.push(v)[stem.len() as int] == v);
        }
        least_number(ends, from.last());
        let end = choose|least: int|
            ends.contains(least) && forall|v: int| #[trigger] ends.contains(v) ==> least <= v;
        let least = stem.push(end);
        assert(least.drop_last() =~= stem);
        assert forall|a: Seq<int>| #[trigger] among.contains(a) implies at_most(least, a) by {
            assert(stems.contains(a.drop_last()));
            if a.drop_last() == stem {
                assert(a =~= stem.push(a.last()));
                assert(ends.contains(a.last()));
            }
        }
    }
}

/// A set of routes with entries from zero up that is not empty holds a route
/// that none of its others comes before.
pub proof fn least_route(among: Set<Seq<int>>, witness: Seq<int>)
    requires
        among.contains(witness),
        forall|a: Seq<int>| #[trigger] among.contains(a) ==> counts_from_zero(a),
    ensures
        exists|least: Seq<int>|
            among.contains(least) && forall|a: Seq<int>| #[trigger]
                among.contains(a) ==> at_most(least, a),
{
    let lengths = Set::new(|n: int| exists|a: Seq<int>| among.contains(a) && #[trigger] a.len() == n);
    assert(lengths.contains(witness.len() as int));
    least_number(lengths, witness.len() as int);
    let n = choose|least: int|
        lengths.contains(least) && forall|v: int| #[trigger] lengths.contains(v) ==> least <= v;
    let short = choose|a: Seq<int>| among.contains(a) && #[trigger] a.len() == n;
    let shortest = Set::new(|a: Seq<int>| among.contains(a) && a.len() == n);
    assert(shortest.contains(short));
    least_of_length(shortest, short);
    let least = choose|least: Seq<int>|
        shortest.contains(least) && forall|a: Seq<int>| #[trigger]
            shortest.contains(a) ==> at_most(least, a);
    assert forall|a: Seq<int>| #[trigger] among.contains(a) implies at_most(least, a) by {
        assert(lengths.contains(a.len() as int));
        if a.len() == n {
            assert(shortest.contains(a));
        }
    }
}

} // verus!
