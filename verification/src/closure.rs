//! Epsilon closure and symbol moves as sets of state indices, with the laws
//! of closure that the simulation rests on.
use crate::nfa::EPSILON;
use vstd::prelude::*;

verus! {

/// A transition relation: the set of targets of each (state index, label)
/// that has any.
pub type Relation = Map<(usize, char), Set<usize>>;

/// There is a silent move from `p` to `q`.
pub open spec fn silent(rel: Relation, p: usize, q: usize) -> bool {
    rel.dom().contains((p, EPSILON)) && rel[(p, EPSILON)].contains(q)
}

/// `q` is reached from a member of `from` by at most `n` silent moves.
pub open spec fn reached(rel: Relation, from: Set<usize>, q: usize, n: nat) -> bool
    decreases n,
{
    if n == 0 {
        from.contains(q)
    } else {
        reached(rel, from, q, (n - 1) as nat) || exists|p: usize|
            reached(rel, from, p, (n - 1) as nat) && silent(rel, p, q)
    }
}

/// The states reached from `from` by silent moves alone, `from` included.
pub open spec fn closure(rel: Relation, from: Set<usize>) -> Set<usize> {
    Set::new(|q: usize| exists|n: nat| reached(rel, from, q, n))
}

/// The targets of the moves labelled `symbol` from the members of `from`.
pub open spec fn moved(rel: Relation, from: Set<usize>, symbol: char) -> Set<usize> {
    Set::new(
        |q: usize|
            exists|p: usize|
                from.contains(p) && rel.dom().contains((p, symbol)) && rel[(p, symbol)].contains(q),
    )
}

/// Every silent move from `p` leads into `set`.
pub open spec fn followed(rel: Relation, p: usize, set: Set<usize>) -> bool {
    forall|q: usize| silent(rel, p, q) ==> set.contains(q)
}

/// Silent moves do not lead out of `set`.
pub open spec fn closed_under_silent(rel: Relation, set: Set<usize>) -> bool {
    forall|p: usize, q: usize| set.contains(p) && silent(rel, p, q) ==> set.contains(q)
}

/// The state indices below `n`.
pub open spec fn below(n: nat) -> Set<usize> {
    Set::new(|x: usize| x < n)
}

/// A closure contains the set it is the closure of.
pub proof fn lemma_closure_extends(rel: Relation, from: Set<usize>)
    ensures
        from.subset_of(closure(rel, from)),
{
    assert forall|q: usize| from.contains(q) implies closure(rel, from).contains(q) by {
        assert(reached(rel, from, q, 0));
    }
}

/// Silent moves do not lead out of a closure.
pub proof fn lemma_closure_closed(rel: Relation, from: Set<usize>)
    ensures
        closed_under_silent(rel, closure(rel, from)),
{
    assert forall|p: usize, q: usize|
        closure(rel, from).contains(p) && silent(rel, p, q) implies closure(rel, from).contains(
        q,
    ) by {
        let n = choose|n: nat| reached(rel, from, p, n);
        assert(reached(rel, from, q, n + 1));
    }
}

/// What is reached from `from` lies in every set that contains `from` and
/// that silent moves do not lead out of.
proof fn lemma_reached_within(rel: Relation, from: Set<usize>, other: Set<usize>, q: usize, n: nat)
    requires
        from.subset_of(other),
        closed_under_silent(rel, other),
        reached(rel, from, q, n),
    ensures
        other.contains(q),
    decreases n,
{
    if n > 0 {
        if reached(rel, from, q, (n - 1) as nat) {
            lemma_reached_within(rel, from, other, q, (n - 1) as nat);
        } else {
            let p = choose|p: usize| reached(rel, from, p, (n - 1) as nat) && silent(rel, p, q);
            lemma_reached_within(rel, from, other, p, (n - 1) as nat);
        }
    }
}

/// A closure is the least set that contains `from` and that silent moves do
/// not lead out of.
pub proof fn lemma_closure_least(rel: Relation, from: Set<usize>, other: Set<usize>)
    requires
        from.subset_of(other),
        closed_under_silent(rel, other),
    ensures
        closure(rel, from).subset_of(other),
{
    assert forall|q: usize| closure(rel, from).contains(q) implies other.contains(q) by {
        let n = choose|n: nat| reached(rel, from, q, n);
        lemma_reached_within(rel, from, other, q, n);
    }
}

/// A set that contains `from`, lies within its closure and is left by no
/// silent move is the closure.
pub proof fn lemma_closure_is(rel: Relation, from: Set<usize>, set: Set<usize>)
    requires
        from.subset_of(set),
        set.subset_of(closure(rel, from)),
        closed_under_silent(rel, set),
    ensures
        set == closure(rel, from),
{
    lemma_closure_least(rel, from, set);
    assert(set =~= closure(rel, from));
}

/// Taking the closure twice adds nothing.
pub proof fn lemma_closure_idempotent(rel: Relation, from: Set<usize>)
    ensures
        closure(rel, closure(rel, from)) == closure(rel, from),
{
    lemma_closure_closed(rel, from);
    lemma_closure_extends(rel, closure(rel, from));
    lemma_closure_least(rel, closure(rel, from), closure(rel, from));
    assert(closure(rel, closure(rel, from)) =~= closure(rel, from));
}

/// A larger set has a larger closure.
pub proof fn lemma_closure_monotone(rel: Relation, small: Set<usize>, large: Set<usize>)
    requires
        small.subset_of(large),
    ensures
        closure(rel, small).subset_of(closure(rel, large)),
{
    lemma_closure_extends(rel, large);
    lemma_closure_closed(rel, large);
    lemma_closure_least(rel, small, closure(rel, large));
}

/// Where every target is below `states`, a closure holds nothing but its
/// starting set and indices below `states`.
pub proof fn lemma_closure_bounded(rel: Relation, from: Set<usize>, states: nat)
    requires
        forall|k: (usize, char), q: usize|
            rel.dom().contains(k) && #[trigger] rel[k].contains(q) ==> q < states,
    ensures
        closure(rel, from).subset_of(from.union(below(states))),
{
    let other = from.union(below(states));
    assert forall|p: usize, q: usize| other.contains(p) && silent(rel, p, q) implies other.contains(
        q,
    ) by {
        assert(rel[(p, EPSILON)].contains(q));
        assert(below(states).contains(q));
    }
    lemma_closure_least(rel, from, other);
}

/// There are `n` state indices below `n`.
pub proof fn lemma_below_len(n: nat)
    requires
        n <= usize::MAX + 1,
    ensures
        below(n).finite(),
        below(n).len() == n,
    decreases n,
{
    if n == 0 {
        assert(below(0) =~= Set::<usize>::empty());
    } else {
        lemma_below_len((n - 1) as nat);
        assert(below(n) =~= below((n - 1) as nat).insert((n - 1) as usize));
    }
}

} // verus!
