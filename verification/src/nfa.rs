//! Nondeterministic finite automata with silent moves: validation of a raw
//! description, construction, epsilon closure, and simulation over sets of
//! states.
use crate::closure::{
    below, closed_under_silent, closure, followed, lemma_below_len, lemma_closure_bounded,
    lemma_closure_closed, lemma_closure_extends, lemma_closure_is, moved, silent, Relation,
};
use crate::sets::{all_below, copy_of, intersects, SymbolSet};
use crate::table::Table;
use std::collections::{HashSet, VecDeque};
use vstd::prelude::*;
use vstd::std_specs::iter::IteratorSpec;

verus! {

/// The symbol that labels silent moves. No alphabet may contain it.
pub const EPSILON: char = '~';

/// A state, identified by its index below the automaton's state count.
#[derive(Debug, Clone, Copy, PartialEq, Eq, Hash, Structural)]
pub struct State(pub usize);

/// The first invariant that a raw description of an NFA violates.
#[derive(Debug, Clone, Copy, PartialEq, Eq, Structural)]
pub enum NFATypeError {
    InvalidStartState,
    InvalidAcceptState,
    InvalidTransitionFunction,
    ReservedCharacterInAlphabet,
}

/// The outcome of running an automaton on an input over its alphabet.
#[derive(Debug, Clone, Copy, PartialEq, Eq, Structural)]
pub enum SimulationResult {
    Accepted,
    Rejected,
}

/// Why an input cannot be run.
#[derive(Debug, Clone, Copy, PartialEq, Eq, Structural)]
pub enum InputError {
    InvalidSymbol,
}

/// A validated nondeterministic automaton. It is built once and never changed.
pub struct NFA {
    states: usize,
    start: State,
    accept: HashSet<usize>,
    alphabet: SymbolSet,
    tfn: Table<HashSet<usize>>,
}

/// The transition relation that a table of target sets denotes.
pub open spec fn relation(tfn: Map<(usize, char), HashSet<usize>>) -> Relation {
    Map::new(|k: (usize, char)| tfn.dom().contains(k), |k: (usize, char)| tfn[k]@)
}

/// Every transition starts at a state and is labelled with a symbol of the
/// alphabet or with epsilon.
pub open spec fn keys_in_scope(
    states: usize,
    alphabet: Set<char>,
    tfn: Map<(usize, char), Set<usize>>,
) -> bool {
    forall|s: usize, c: char| #[trigger]
        tfn.dom().contains((s, c)) ==> s < states && (c == EPSILON || alphabet.contains(c))
}

/// Every transition leads to states.
pub open spec fn targets_in_range(states: usize, tfn: Map<(usize, char), Set<usize>>) -> bool {
    forall|k: (usize, char), q: usize|
        tfn.dom().contains(k) && #[trigger] tfn[k].contains(q) ==> q < states
}

/// The first invariant, in the order start, accept, alphabet, transition
/// keys, transition targets, that the description violates; `None` where it
/// violates none.
pub open spec fn fault(
    states: usize,
    start: usize,
    accept: Set<usize>,
    alphabet: Set<char>,
    tfn: Map<(usize, char), Set<usize>>,
) -> Option<NFATypeError> {
    if !(start < states) {
        Some(NFATypeError::InvalidStartState)
    } else if !(forall|s: usize| accept.contains(s) ==> s < states) {
        Some(NFATypeError::InvalidAcceptState)
    } else if alphabet.contains(EPSILON) {
        Some(NFATypeError::ReservedCharacterInAlphabet)
    } else if !keys_in_scope(states, alphabet, tfn) || !targets_in_range(states, tfn) {
        Some(NFATypeError::InvalidTransitionFunction)
    } else {
        None
    }
}

/// Whether every key of the table is in scope.
fn keys_checked(states: usize, alphabet: &SymbolSet, tfn: &Table<HashSet<usize>>) -> (all: bool)
    requires
        tfn.wf(),
    ensures
        all == keys_in_scope(states, alphabet@, relation(tfn@)),
{
    proof {
        tfn.lemma_entries();
    }
    let n = tfn.len();
    let mut i: usize = 0;
    while i < n
        invariant
            tfn.wf(),
            n == tfn.keys().len(),
            i <= n,
            forall|j: int|
                0 <= j < i ==> (#[trigger] tfn.keys()[j]).0 < states && (tfn.keys()[j].1 == EPSILON
                    || alphabet@.contains(tfn.keys()[j].1)),
        decreases n - i,
    {
        let key = tfn.key_at(i);
        if !(key.0 < states && (key.1 == EPSILON || alphabet.contains(key.1))) {
            proof {
                tfn.lemma_entries();
                assert(tfn@.dom().contains(tfn.keys()[i as int]));
                assert(relation(tfn@).dom().contains((key.0, key.1)));
            }
            return false;
        }
        i = i + 1;
    }
    proof {
        tfn.lemma_entries();
        assert forall|s: usize, c: char| #[trigger]
            relation(tfn@).dom().contains((s, c)) implies s < states && (c == EPSILON
            || alphabet@.contains(c)) by {
            let j = tfn.keys().index_of((s, c));
            assert(tfn.keys()[j] == (s, c));
        }
    }
    true
}

/// Whether every target set of the table holds states only.
fn targets_checked(states: usize, tfn: &Table<HashSet<usize>>) -> (all: bool)
    requires
        tfn.wf(),
    ensures
        all == targets_in_range(states, relation(tfn@)),
{
    proof {
        tfn.lemma_entries();
    }
    let n = tfn.len();
    let mut i: usize = 0;
    while i < n
        invariant
            tfn.wf(),
            n == tfn.keys().len(),
            n == tfn.values().len(),
            i <= n,
            forall|j: int, q: usize|
                0 <= j < i && (#[trigger] tfn.values()[j]@.contains(q)) ==> q < states,
        decreases n - i,
    {
        if !all_below(tfn.value_at(i), states) {
            proof {
                tfn.lemma_entries();
                let k = tfn.keys()[i as int];
                assert(tfn@.dom().contains(k));
                let q = choose|q: usize| tfn.values()[i as int]@.contains(q) && !(q < states);
                assert(relation(tfn@).dom().contains(k) && relation(tfn@)[k].contains(q));
            }
            return false;
        }
        i = i + 1;
    }
    proof {
        tfn.lemma_entries();
        assert forall|k: (usize, char), q: usize|
            relation(tfn@).dom().contains(k) && #[trigger] relation(tfn@)[k].contains(
                q,
            ) implies q < states by {
            let j = tfn.keys().index_of(k);
            assert(tfn.keys()[j] == k);
            assert(tfn.values()[j]@.contains(q));
        }
    }
    true
}

impl NFA {
    /// The number of states; the states are the indices below it.
    pub closed spec fn state_count(&self) -> usize {
        self.states
    }

    /// The state in which every run starts.
    pub closed spec fn start(&self) -> State {
        self.start
    }

    /// The indices of the accepting states.
    pub closed spec fn accept(&self) -> Set<usize> {
        self.accept@
    }

    /// The alphabet that the automaton works with: the declared symbols and
    /// epsilon.
    pub closed spec fn alphabet(&self) -> Set<char> {
        self.alphabet@
    }

    /// The declared symbols, which are those an input may hold.
    pub open spec fn symbols(&self) -> Set<char> {
        self.alphabet().remove(EPSILON)
    }

    /// The transition relation, from (state index, symbol or epsilon) to the
    /// set of target indices. A pair outside its domain has no move.
    pub closed spec fn transitions(&self) -> Map<(usize, char), Set<usize>> {
        relation(self.tfn@)
    }

    /// The automaton violates none of the invariants of an NFA.
    pub closed spec fn wf(&self) -> bool {
        &&& self.alphabet.wf()
        &&& self.tfn.wf()
        &&& self.alphabet@.contains(EPSILON)
        &&& fault(
            self.states,
            self.start.0,
            self.accept@,
            self.alphabet@.remove(EPSILON),
            relation(self.tfn@),
        ) is None
    }

    /// Checks a raw description and reports the first invariant it violates.
    pub fn validate_nfa(
        states: usize,
        start: usize,
        accept: &HashSet<usize>,
        alphabet: &SymbolSet,
        tfn: &Table<HashSet<usize>>,
    ) -> (verdict: Result<(), NFATypeError>)
        requires
            tfn.wf(),
        ensures
            verdict == match fault(states, start, accept@, alphabet@, relation(tfn@)) {
                Some(e) => Err::<(), NFATypeError>(e),
                None => Ok(()),
            },
    {
        if !(start < states) {
            return Err(NFATypeError::InvalidStartState);
        }
        if !all_below(accept, states) {
            return Err(NFATypeError::InvalidAcceptState);
        }
        if alphabet.contains(EPSILON) {
            return Err(NFATypeError::ReservedCharacterInAlphabet);
        }
        if !keys_checked(states, alphabet, tfn) {
            return Err(NFATypeError::InvalidTransitionFunction);
        }
        if !targets_checked(states, tfn) {
            return Err(NFATypeError::InvalidTransitionFunction);
        }
        Ok(())
    }

    /// Builds the automaton that a raw description denotes, or reports the
    /// first invariant that the description violates. The automaton's own
    /// alphabet is the declared one with epsilon added.
    pub fn new(
        states: usize,
        start: usize,
        accept: HashSet<usize>,
        alphabet: SymbolSet,
        tfn: Table<HashSet<usize>>,
    ) -> (built: Result<Self, NFATypeError>)
        requires
            alphabet.wf(),
            tfn.wf(),
        ensures
            match built {
                Ok(nfa) => {
                    &&& fault(states, start, accept@, alphabet@, relation(tfn@)) is None
                    &&& nfa.wf()
                    &&& nfa.state_count() == states
                    &&& nfa.start() == State(start)
                    &&& nfa.accept() == accept@
                    &&& nfa.alphabet() == alphabet@.insert(EPSILON)
                    &&& nfa.symbols() == alphabet@
                    &&& nfa.transitions() == relation(tfn@)
                },
                Err(e) => fault(states, start, accept@, alphabet@, relation(tfn@)) == Some(e),
            },
    {
        match NFA::validate_nfa(states, start, &accept, &alphabet, &tfn) {
            Err(e) => Err(e),
            Ok(()) => {
                let mut alphabet_with_epsilon = alphabet;
                alphabet_with_epsilon.insert(EPSILON);
                assert(alphabet_with_epsilon@.remove(EPSILON) =~= alphabet@);
                Ok(NFA { states, start: State(start), accept, alphabet: alphabet_with_epsilon, tfn })
            },
        }
    }

    /// Whether every symbol of `input` is a declared symbol.
    pub open spec fn valid_input(&self, input: Seq<char>) -> bool {
        forall|i: int| 0 <= i < input.len() ==> self.symbols().contains(#[trigger] input[i])
    }

    /// Checks that the input holds declared symbols only.
    pub fn validate_input(&self, input: &String) -> (verdict: Result<(), InputError>)
        ensures
            verdict == if self.valid_input(input@) {
                Ok::<(), InputError>(())
            } else {
                Err::<(), InputError>(InputError::InvalidSymbol)
            },
    {
        for symbol in it: input.as_str().chars()
            invariant
                it.seq() == input@,
                forall|i: int| 0 <= i < it.index() ==> self.symbols().contains(#[trigger] input@[i]),
        {
            assert(symbol == input@[it.index() as int]);
            if symbol == EPSILON || !self.alphabet.contains(symbol) {
                return Err(InputError::InvalidSymbol);
            }
        }
        Ok(())
    }

    /// The states that the automaton may be in after reading `input`, before
    /// any silent move that follows the last symbol.
    pub open spec fn reachable(&self, input: Seq<char>) -> Set<usize>
        decreases input.len(),
    {
        if input.len() == 0 {
            set![self.start().0]
        } else {
            moved(
                self.transitions(),
                closure(self.transitions(), self.reachable(input.drop_last())),
                input.last(),
            )
        }
    }

    /// Whether some state that the automaton may be in after reading `input`
    /// and moving on silently is accepting.
    pub open spec fn accepts(&self, input: Seq<char>) -> bool {
        exists|q: usize|
            closure(self.transitions(), self.reachable(input)).contains(q)
                && self.accept().contains(q)
    }

    /// What simulation returns: an input with a symbol that is not declared
    /// is refused, whatever else it holds; any other is accepted or rejected.
    pub open spec fn outcome(&self, input: Seq<char>) -> Result<SimulationResult, InputError> {
        if !self.valid_input(input) {
            Err(InputError::InvalidSymbol)
        } else if self.accepts(input) {
            Ok(SimulationResult::Accepted)
        } else {
            Ok(SimulationResult::Rejected)
        }
    }

    /// A description whose alphabet holds epsilon, and whose start and
    /// accepting states are in range, is refused for the reserved symbol.
    pub proof fn lemma_reserved_symbol_refused(
        states: usize,
        start: usize,
        accept: Set<usize>,
        alphabet: Set<char>,
        tfn: Relation,
    )
        requires
            start < states,
            forall|q: usize| accept.contains(q) ==> q < states,
            alphabet.contains(EPSILON),
        ensures
            fault(states, start, accept, alphabet, tfn) == Some(
                NFATypeError::ReservedCharacterInAlphabet,
            ),
    {
    }

    /// What a valid automaton holds: start, accepting states and all targets
    /// are states, every move starts at a state and is labelled with a
    /// declared symbol or epsilon, and epsilon is no declared symbol.
    pub proof fn lemma_well_scoped(&self)
        requires
            self.wf(),
        ensures
            self.start().0 < self.state_count(),
            forall|q: usize| self.accept().contains(q) ==> q < self.state_count(),
            self.alphabet().contains(EPSILON),
            !self.symbols().contains(EPSILON),
            keys_in_scope(self.state_count(), self.symbols(), self.transitions()),
            targets_in_range(self.state_count(), self.transitions()),
    {
    }

    /// An input that holds a symbol which is not declared is refused,
    /// wherever the symbol stands and whatever the automaton would do on the
    /// rest.
    pub proof fn lemma_invalid_symbol_refused(&self, input: Seq<char>, i: int)
        requires
            0 <= i < input.len(),
            !self.symbols().contains(input[i]),
        ensures
            self.outcome(input) == Err::<SimulationResult, InputError>(InputError::InvalidSymbol),
    {
    }

    /// Whatever a valid automaton has read, it is in states only, also after
    /// the silent moves that follow.
    pub proof fn lemma_reachable_in_range(&self, input: Seq<char>)
        requires
            self.wf(),
        ensures
            self.reachable(input).subset_of(below(self.state_count() as nat)),
            closure(self.transitions(), self.reachable(input)).subset_of(
                below(self.state_count() as nat),
            ),
        decreases input.len(),
    {
        let rel = self.transitions();
        let all = below(self.state_count() as nat);
        if input.len() > 0 {
            self.lemma_reachable_in_range(input.drop_last());
            let from = closure(rel, self.reachable(input.drop_last()));
            assert forall|q: usize| self.reachable(input).contains(q) implies all.contains(q) by {
                let p = choose|p: usize|
                    from.contains(p) && rel.dom().contains((p, input.last())) && rel[(
                        p,
                        input.last(),
                    )].contains(q);
                assert(rel[(p, input.last())].contains(q));
            }
        }
        lemma_closure_bounded(rel, self.reachable(input), self.state_count() as nat);
    }

    /// The states reached from `states` by silent moves alone, `states`
    /// included.
    ///
    /// The closure starts as `states`, and so does the worklist. A state
    /// taken from the worklist has its silent moves followed; a target that
    /// is new to the closure joins both. No state is queued twice, so cycles
    /// of silent moves end.
    pub fn epsilon_closure(&self, states: &HashSet<usize>) -> (closed: HashSet<usize>)
        requires
            self.wf(),
        ensures
            closed@ == closure(self.transitions(), states@),
    {
        let ghost rel = self.transitions();
        let ghost whole = closure(rel, states@);
        let mut closed = copy_of(states);
        let mut worklist: VecDeque<usize> = VecDeque::new();
        let ghost members = states.iter().remaining().unref();
        for s in it: states.iter()
            invariant
                it.seq().unref() == members,
                members.to_set() == states@,
                worklist@ == members.take(it.index() as int),
        {
            assert(members.take(it.index() + 1) =~= members.take(it.index() as int).push(*s));
            worklist.push_back(*s);
        }
        let ghost universe = states@.union(below(self.states as nat));
        proof {
            assert(members.take(members.len() as int) =~= members);
            lemma_closure_extends(rel, states@);
            lemma_closure_closed(rel, states@);
            lemma_closure_bounded(rel, states@, self.states as nat);
            lemma_below_len(self.states as nat);
        }
        loop
            invariant
                self.wf(),
                rel == self.transitions(),
                whole == closure(rel, states@),
                universe.finite(),
                whole.subset_of(universe),
                closed_under_silent(rel, whole),
                closed@.finite(),
                states@.subset_of(closed@),
                closed@.subset_of(whole),
                forall|i: int| 0 <= i < worklist@.len() ==> closed@.contains(#[trigger] worklist@[i]),
                forall|p: usize| #[trigger]
                    closed@.contains(p) ==> worklist@.contains(p) || followed(rel, p, closed@),
            ensures
                closed@ == whole,
            decreases universe.len() - closed@.len(), worklist@.len(),
        {
            let ghost queued = worklist@;
            let ghost known = closed@;
            proof {
                vstd::set_lib::lemma_len_subset(known, universe);
            }
            let s = match worklist.pop_front() {
                Some(s) => s,
                None => {
                    proof {
                        assert forall|p: usize, q: usize|
                            closed@.contains(p) && silent(rel, p, q) implies closed@.contains(
                            q,
                        ) by {
                            assert(followed(rel, p, closed@));
                        }
                        lemma_closure_is(rel, states@, closed@);
                    }
                    break ;
                },
            };
            let ghost rest = worklist@;
            assert(queued[0] == s);
            assert(forall|i: int| 0 <= i < rest.len() ==> rest[i] == queued[i + 1]);
            if let Some(nexts) = self.tfn.get((s, EPSILON)) {
                let ghost targets = nexts.iter().remaining().unref();
                for next in it: nexts.iter()
                    invariant
                        it.seq().unref() == targets,
                        targets.to_set() == nexts@,
                        rel.dom().contains((s, EPSILON)),
                        rel[(s, EPSILON)] == nexts@,
                        whole.contains(s),
                        closed_under_silent(rel, whole),
                        closed@.finite(),
                        known.finite(),
                        known.subset_of(closed@),
                        closed@.subset_of(whole),
                        closed@.len() - known.len() == worklist@.len() - rest.len(),
                        rest.is_prefix_of(worklist@),
                        forall|i: int|
                            0 <= i < worklist@.len() ==> closed@.contains(#[trigger] worklist@[i]),
                        forall|p: usize|
                            closed@.contains(p) && !known.contains(p) ==> worklist@.contains(p),
                        forall|j: int| 0 <= j < it.index() ==> closed@.contains(#[trigger] targets[j]),
                {
                    assert(targets[it.index() as int] == *next);
                    assert(nexts@.contains(*next));
                    assert(silent(rel, s, *next));
                    let ghost earlier = worklist@;
                    if closed.insert(*next) {
                        // discovered a new state
                        worklist.push_back(*next);
                        assert(worklist@[earlier.len() as int] == *next);
                        assert forall|p: usize|
                            closed@.contains(p) && !known.contains(p) implies worklist@.contains(
                            p,
                        ) by {
                            if p != *next {
                                let at = earlier.index_of(p);
                                assert(worklist@[at] == p);
                            }
                        }
                    }
                }
                proof {
                    assert forall|q: usize| silent(rel, s, q) implies closed@.contains(q) by {
                        let j = targets.index_of(q);
                        assert(targets[j] == q);
                    }
                }
            }
            proof {
                vstd::set_lib::lemma_len_subset(known, closed@);
                vstd::set_lib::lemma_len_subset(closed@, universe);
                assert(followed(rel, s, closed@));
                assert forall|p: usize| #[trigger] closed@.contains(p) implies worklist@.contains(
                    p,
                ) || followed(rel, p, closed@) by {
                    if known.contains(p) && p != s {
                        if queued.contains(p) {
                            let at = queued.index_of(p);
                            assert(rest[at - 1] == p);
                            assert(worklist@[at - 1] == p);
                        } else {
                            assert(followed(rel, p, known));
                        }
                    }
                }
            }
        }
        closed
    }

    /// The targets of the moves labelled `symbol` from the members of `from`.
    /// A state without such a move adds nothing.
    fn move_on(&self, from: &HashSet<usize>, symbol: char) -> (after: HashSet<usize>)
        requires
            self.wf(),
        ensures
            after@ == moved(self.transitions(), from@, symbol),
    {
        let ghost rel = self.transitions();
        let mut after: HashSet<usize> = HashSet::new();
        let ghost sources = from.iter().remaining().unref();
        assert(after@ =~= moved(rel, sources.take(0).to_set(), symbol));
        for current in it: from.iter()
            invariant
                self.wf(),
                rel == self.transitions(),
                it.seq().unref() == sources,
                sources.to_set() == from@,
                after@ == moved(rel, sources.take(it.index() as int).to_set(), symbol),
        {
            let ghost done = sources.take(it.index() as int).to_set();
            let ghost earlier = after@;
            let ghost p = *current;
            proof {
                assert(sources.take(it.index() + 1) =~= sources.take(it.index() as int).push(p));
                sources.take(it.index() as int).lemma_push_to_set_commute(p);
            }
            match self.tfn.get((*current, symbol)) {
                Some(targets) => {
                    let ghost listed = targets.iter().remaining().unref();
                    for target in jt: targets.iter()
                        invariant
                            jt.seq().unref() == listed,
                            listed.to_set() == targets@,
                            after@ == earlier.union(listed.take(jt.index() as int).to_set()),
                    {
                        proof {
                            let read = listed.take(jt.index() as int);
                            assert(listed.take(jt.index() + 1) =~= read.push(*target));
                            read.lemma_push_to_set_commute(*target);
                        }
                        after.insert(*target);
                        assert(after@ =~= earlier.union(
                            listed.take(jt.index() + 1).to_set(),
                        ));
                    }
                    proof {
                        assert(listed.take(listed.len() as int) =~= listed);
                        assert forall|q: usize| after@.contains(q) implies moved(
                            rel,
                            done.insert(p),
                            symbol,
                        ).contains(q) by {
                            if earlier.contains(q) {
                                let w = choose|w: usize|
                                    done.contains(w) && rel.dom().contains((w, symbol)) && rel[(
                                        w,
                                        symbol,
                                    )].contains(q);
                                assert(done.insert(p).contains(w));
                            } else {
                                assert(done.insert(p).contains(p));
                            }
                        }
                        assert(after@ =~= moved(rel, done.insert(p), symbol));
                    }
                },
                None => {
                    proof {
                        assert forall|q: usize|
                            moved(rel, done.insert(p), symbol).contains(q) implies after@.contains(
                            q,
                        ) by {
                            let w = choose|w: usize|
                                done.insert(p).contains(w) && rel.dom().contains((w, symbol))
                                    && rel[(w, symbol)].contains(q);
                            assert(done.contains(w));
                        }
                        assert forall|q: usize| after@.contains(q) implies moved(
                            rel,
                            done.insert(p),
                            symbol,
                        ).contains(q) by {
                            let w = choose|w: usize|
                                done.contains(w) && rel.dom().contains((w, symbol)) && rel[(
                                    w,
                                    symbol,
                                )].contains(q);
                            assert(done.insert(p).contains(w));
                        }
                        assert(after@ =~= moved(rel, done.insert(p), symbol));
                    }
                },
            }
        }
        assert(sources.take(sources.len() as int) =~= sources);
        after
    }

    /// Runs the automaton on `input`. The input is checked against the
    /// declared symbols first, so that nothing is read of an input that is
    /// refused.
    pub fn simulate(&self, input: &String) -> (result: Result<SimulationResult, InputError>)
        requires
            self.wf(),
        ensures
            result == self.outcome(input@),
    {
        match self.validate_input(input) {
            Err(e) => {
                return Err(e);
            },
            Ok(()) => {},
        }
        let mut current_states: HashSet<usize> = HashSet::new();
        current_states.insert(self.start.0);
        assert(current_states@ =~= set![self.start.0]);
        assert(input@.take(0).len() == 0);
        for symbol in it: input.as_str().chars()
            invariant
                self.wf(),
                it.seq() == input@,
                current_states@ == self.reachable(input@.take(it.index() as int)),
        {
            let ghost read = input@.take(it.index() as int);
            let ghost more = input@.take(it.index() + 1);
            assert(symbol == input@[it.index() as int]);
            assert(more.drop_last() =~= read && more.last() == symbol);
            let closed = self.epsilon_closure(&current_states);
            current_states = self.move_on(&closed, symbol);
        }
        assert(input@.take(input@.len() as int) =~= input@);
        let final_closure = self.epsilon_closure(&current_states);
        let shared = intersects(&self.accept, &final_closure);
        proof {
            if shared {
                let q = choose|q: usize| self.accept@.contains(q) && final_closure@.contains(q);
                assert(final_closure@.contains(q) && self.accept().contains(q));
            }
        }
        if shared {
            Ok(SimulationResult::Accepted)
        } else {
            Ok(SimulationResult::Rejected)
        }
    }
}

} // verus!
