//! Sets of input symbols, and what the automata ask of sets of state
//! indices.
//!
//! State indices are kept in the standard hash set. A set of symbols keeps
//! its members in a vector in which nothing occurs twice, so that the number
//! of members is the vector's length.
use std::collections::HashSet;
use vstd::prelude::*;
use vstd::std_specs::iter::IteratorSpec;

verus! {

/// Whether every member of `set` is below `bound`.
pub fn all_below(set: &HashSet<usize>, bound: usize) -> (all: bool)
    ensures
        all == (forall|x: usize| set@.contains(x) ==> x < bound),
{
    let ghost members = set.iter().remaining().unref();
    for x in it: set.iter()
        invariant
            it.seq().unref() == members,
            members.to_set() == set@,
            forall|j: int| 0 <= j < it.index() ==> members[j] < bound,
    {
        if !(*x < bound) {
            assert(members[it.index() as int] == *x);
            assert(set@.contains(*x));
            return false;
        }
    }
    assert forall|x: usize| set@.contains(x) implies x < bound by {
        let j = members.index_of(x);
        assert(members[j] == x);
    }
    true
}

/// Whether the two sets share a member.
pub fn intersects(left: &HashSet<usize>, right: &HashSet<usize>) -> (shared: bool)
    ensures
        shared == (exists|x: usize| left@.contains(x) && right@.contains(x)),
{
    let ghost members = left.iter().remaining().unref();
    for x in it: left.iter()
        invariant
            it.seq().unref() == members,
            members.to_set() == left@,
            forall|j: int| 0 <= j < it.index() ==> !right@.contains(members[j]),
    {
        if right.contains(x) {
            assert(members[it.index() as int] == *x);
            assert(left@.contains(*x) && right@.contains(*x));
            return true;
        }
    }
    assert forall|x: usize| left@.contains(x) implies !right@.contains(x) by {
        let j = members.index_of(x);
        assert(members[j] == x);
    }
    false
}

/// A set with the same members.
pub fn copy_of(set: &HashSet<usize>) -> (copy: HashSet<usize>)
    ensures
        copy@ == set@,
        copy@.finite(),
{
    let mut copy: HashSet<usize> = HashSet::new();
    let ghost members = set.iter().remaining().unref();
    for x in it: set.iter()
        invariant
            it.seq().unref() == members,
            members.to_set() == set@,
            copy@ == members.take(it.index() as int).to_set(),
    {
        proof {
            let read = members.take(it.index() as int);
            assert(members.take(it.index() + 1) =~= read.push(*x));
            read.lemma_push_to_set_commute(*x);
        }
        copy.insert(*x);
    }
    proof {
        assert(members.take(members.len() as int) =~= members);
        vstd::seq_lib::seq_to_set_is_finite(members);
    }
    copy
}

/// A finite set of input symbols.
#[derive(Debug)]
pub struct SymbolSet {
    items: Vec<char>,
}

impl View for SymbolSet {
    type V = Set<char>;

    closed spec fn view(&self) -> Set<char> {
        self.items@.to_set()
    }
}

impl SymbolSet {
    /// Nothing is stored twice.
    pub closed spec fn wf(&self) -> bool {
        self.items@.no_duplicates()
    }

    /// The members in the order in which they were first inserted.
    pub closed spec fn members(&self) -> Seq<char> {
        self.items@
    }

    /// The stored sequence lists the set exactly once.
    pub proof fn lemma_members(&self)
        requires
            self.wf(),
        ensures
            self.members().no_duplicates(),
            self.members().to_set() == self@,
            self.members().len() == self@.len(),
            self@.finite(),
    {
        self.items@.unique_seq_to_set();
        vstd::seq_lib::seq_to_set_is_finite(self.items@);
    }

    /// The empty set.
    pub fn new() -> (s: Self)
        ensures
            s@ == Set::<char>::empty(),
            s.members() == Seq::<char>::empty(),
            s.wf(),
    {
        let s = SymbolSet { items: Vec::new() };
        assert(s.items@.to_set() =~= Set::<char>::empty());
        s
    }

    /// The number of members.
    pub fn len(&self) -> (n: usize)
        requires
            self.wf(),
        ensures
            n == self@.len(),
            n == self.members().len(),
    {
        proof {
            self.lemma_members();
        }
        self.items.len()
    }

    /// Whether `x` is a member.
    pub fn contains(&self, x: char) -> (found: bool)
        ensures
            found == self@.contains(x),
    {
        let mut i: usize = 0;
        while i < self.items.len()
            invariant
                i <= self.items@.len(),
                forall|j: int| 0 <= j < i ==> self.items@[j] != x,
            decreases self.items@.len() - i,
        {
            if self.items[i] == x {
                return true;
            }
            i = i + 1;
        }
        false
    }

    /// Adds `x`; says whether it was new.
    pub fn insert(&mut self, x: char) -> (fresh: bool)
        requires
            old(self).wf(),
        ensures
            final(self)@ == old(self)@.insert(x),
            fresh == !old(self)@.contains(x),
            final(self).wf(),
            final(self).members() == if fresh {
                old(self).members().push(x)
            } else {
                old(self).members()
            },
    {
        if self.contains(x) {
            assert(self@.insert(x) =~= self@);
            false
        } else {
            let ghost before = self.items@;
            self.items.push(x);
            proof {
                before.lemma_push_to_set_commute(x);
            }
            true
        }
    }

    /// The set of the values in `v`.
    pub fn from_vec(v: Vec<char>) -> (s: Self)
        ensures
            s@ == v@.to_set(),
            s.wf(),
    {
        let mut s = SymbolSet::new();
        let mut i: usize = 0;
        while i < v.len()
            invariant
                i <= v@.len(),
                s@ == v@.take(i as int).to_set(),
                s.wf(),
            decreases v@.len() - i,
        {
            s.insert(v[i]);
            proof {
                assert(v@.take(i + 1) =~= v@.take(i as int).push(v@[i as int]));
                v@.take(i as int).lemma_push_to_set_commute(v@[i as int]);
            }
            i = i + 1;
        }
        assert(v@.take(i as int) =~= v@);
        s
    }

    /// The members as a vector, in the order of `members()`.
    pub fn as_vec(&self) -> (v: &Vec<char>)
        ensures
            v@ == self.members(),
    {
        &self.items
    }
}

} // verus!
