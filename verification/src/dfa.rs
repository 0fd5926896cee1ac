//! Deterministic finite automata: validation of a raw description,
//! construction, and single-path simulation.
use crate::pairs::{
    lemma_pair_at, lemma_pair_position, lemma_pairs_distinct, next_pair, pairs_in_order,
    pairs_left, state_symbol_pairs,
};
use crate::sets::{all_below, SymbolSet};
use crate::table::Table;
use std::collections::HashSet;
use vstd::prelude::*;

verus! {

/// The outcome of running an automaton on an input.
#[derive(Debug, Clone, Copy, PartialEq, Eq, Structural)]
pub enum SimulationResult {
    Accepted,
    Rejected,
}

/// The first invariant that a raw description of a DFA violates.
#[derive(Debug, Clone, Copy, PartialEq, Eq, Structural)]
pub enum DFATypeError {
    InvalidStartState,
    InvalidAcceptState,
    InvalidTransitionFunction,
    NonTotalTransitionFunction,
}

/// A state, identified by its index below the automaton's state count.
#[derive(Debug, Clone, Copy, PartialEq, Eq, Hash, Structural)]
pub struct State(pub usize);

/// A validated deterministic automaton. It is built once and never changed.
pub struct DFA {
    states: usize,
    start: State,
    accept: HashSet<usize>,
    alphabet: SymbolSet,
    tfn: Table<usize>,
}

/// Every pair of a state and a symbol has a transition.
pub open spec fn total(states: usize, alphabet: Set<char>, tfn: Map<(usize, char), usize>) -> bool {
    forall|s: usize, a: char| s < states && alphabet.contains(a) ==> tfn.dom().contains((s, a))
}

/// The first invariant, in the order start, accept, totality, shape, that
/// the description violates; `None` where it violates none.
pub open spec fn fault(
    states: usize,
    start: usize,
    accept: Set<usize>,
    alphabet: Set<char>,
    tfn: Map<(usize, char), usize>,
) -> Option<DFATypeError> {
    if !(start < states) {
        Some(DFATypeError::InvalidStartState)
    } else if !(forall|s: usize| accept.contains(s) ==> s < states) {
        Some(DFATypeError::InvalidAcceptState)
    } else if !total(states, alphabet, tfn) {
        Some(DFATypeError::NonTotalTransitionFunction)
    } else if tfn.dom().len() != states * alphabet.len() || !(forall|k: (usize, char)|
        tfn.dom().contains(k) ==> tfn[k] < states) {
        Some(DFATypeError::InvalidTransitionFunction)
    } else {
        None
    }
}

/// Whether `tfn` has a transition for every pair that the product of the
/// states and the alphabet hands out.
fn covers(states: usize, alphabet: &SymbolSet, tfn: &Table<usize>) -> (all: bool)
    requires
        alphabet.wf(),
    ensures
        all == total(states, alphabet@, tfn@),
{
    let mut pairs = state_symbol_pairs(states, alphabet.as_vec());
    let ghost symbols = alphabet.members();
    let ghost listed = pairs_in_order(states as nat, symbols);
    let ghost mut seen: int = 0;
    proof {
        alphabet.lemma_members();
    }
    loop
        invariant
            symbols == alphabet.members(),
            symbols.to_set() == alphabet@,
            listed == pairs_in_order(states as nat, symbols),
            0 <= seen <= listed.len(),
            pairs_left(pairs) == listed.skip(seen),
            forall|k: int| 0 <= k < seen ==> tfn@.dom().contains(#[trigger] listed[k]),
        decreases listed.len() - seen,
    {
        match next_pair(&mut pairs) {
            Some(pair) => {
                assert(pair == listed[seen]);
                if !tfn.contains_key(pair) {
                    proof {
                        lemma_pair_at(states as nat, symbols, seen);
                        assert(alphabet@.contains(pair.1));
                        assert(pair.0 < states);
                    }
                    return false;
                }
                proof {
                    seen = seen + 1;
                }
            },
            None => {
                proof {
                    assert(seen == listed.len());
                    assert forall|s: usize, a: char|
                        s < states && alphabet@.contains(a) implies tfn@.dom().contains(
                        (s, a),
                    ) by {
                        let j = symbols.index_of(a);
                        lemma_pair_position(states as nat, symbols, s, j);
                        assert(listed[s * symbols.len() + j] == (s, a));
                    }
                }
                return true;
            },
        }
    }
}

/// Whether every transition leads to a state below `states`.
fn targets_below(tfn: &Table<usize>, states: usize) -> (all: bool)
    requires
        tfn.wf(),
    ensures
        all == (forall|k: (usize, char)| tfn@.dom().contains(k) ==> tfn@[k] < states),
{
    proof {
        tfn.lemma_entries();
    }
    let n = tfn.len();
    let mut i: usize = 0;
    while i < n
        invariant
            tfn.wf(),
            n == tfn.keys().len(),
            n == tfn.values().len(),
            i <= n,
            forall|j: int| 0 <= j < i ==> tfn.values()[j] < states,
        decreases n - i,
    {
        if !(*tfn.value_at(i) < states) {
            proof {
                tfn.lemma_entries();
                assert(tfn@.dom().contains(tfn.keys()[i as int]));
            }
            return false;
        }
        i = i + 1;
    }
    proof {
        tfn.lemma_entries();
        assert forall|k: (usize, char)| tfn@.dom().contains(k) implies tfn@[k] < states by {
            let j = tfn.keys().index_of(k);
            assert(tfn.keys()[j] == k);
        }
    }
    true
}

impl DFA {
    /// The number of states; the states are the indices below it.
    pub closed spec fn state_count(&self) -> usize {
        self.states
    }

    /// The state in which every run starts.
    pub closed spec fn start(&self) -> State {
        self.start
    }

    /// The indices of the accepting states.
    pub closed spec fn accept(&self) -> Set<usize> {
        self.accept@
    }

    /// The symbols that have transitions.
    pub closed spec fn alphabet(&self) -> Set<char> {
        self.alphabet@
    }

    /// The transition function, from (state index, symbol) to state index.
    pub closed spec fn transitions(&self) -> Map<(usize, char), usize> {
        self.tfn@
    }

    /// The automaton violates none of the invariants of a DFA.
    pub closed spec fn wf(&self) -> bool {
        &&& self.alphabet.wf()
        &&& self.tfn.wf()
        &&& fault(self.states, self.start.0, self.accept@, self.alphabet@, self.tfn@) is None
    }

    /// The state after reading `symbol` in state `from`. A pair without a
    /// transition, which a valid automaton does not have for a symbol of its
    /// alphabet, leaves the state as it is.
    pub open spec fn step(&self, from: State, symbol: char) -> State {
        if self.transitions().dom().contains((from.0, symbol)) {
            State(self.transitions()[(from.0, symbol)])
        } else {
            from
        }
    }

    /// The state after reading all of `input` from the start state.
    pub open spec fn run(&self, input: Seq<char>) -> State
        decreases input.len(),
    {
        if input.len() == 0 {
            self.start()
        } else {
            self.step(self.run(input.drop_last()), input.last())
        }
    }

    /// Whether reading `input` ends in an accepting state.
    pub open spec fn accepts(&self, input: Seq<char>) -> bool {
        self.accept().contains(self.run(input).0)
    }

    /// A valid automaton has exactly one transition for each pair of a state
    /// and a symbol: as many as states times symbols.
    pub proof fn lemma_transition_count(&self)
        requires
            self.wf(),
        ensures
            self.transitions().dom().finite(),
            self.alphabet().finite(),
            self.transitions().dom().len() == self.state_count() * self.alphabet().len(),
    {
        self.tfn.lemma_entries();
        self.alphabet.lemma_members();
    }

    /// The transitions of a valid automaton are defined on the pairs of a
    /// state and a symbol of the alphabet and on nothing else, and lead to
    /// states.
    pub proof fn lemma_transition_domain(&self)
        requires
            self.wf(),
        ensures
            forall|s: usize, a: char|
                self.transitions().dom().contains((s, a)) <==> s < self.state_count()
                    && self.alphabet().contains(a),
            forall|k: (usize, char)|
                self.transitions().dom().contains(k) ==> self.transitions()[k]
                    < self.state_count(),
            self.start().0 < self.state_count(),
            forall|s: usize| self.accept().contains(s) ==> s < self.state_count(),
    {
        self.tfn.lemma_entries();
        self.alphabet.lemma_members();
        let symbols = self.alphabet.members();
        let listed = pairs_in_order(self.states as nat, symbols);
        let dom = self.tfn@.dom();
        lemma_pairs_distinct(self.states as nat, symbols);
        listed.unique_seq_to_set();
        vstd::seq_lib::seq_to_set_is_finite(listed);
        assert forall|k: (usize, char)| listed.to_set().contains(k) implies dom.contains(k) by {
            let i = listed.index_of(k);
            lemma_pair_at(self.states as nat, symbols, i);
        }
        assert(listed.to_set().subset_of(dom));
        vstd::set_lib::lemma_subset_equality(listed.to_set(), dom);
        assert forall|s: usize, a: char| dom.contains((s, a)) implies s < self.states
            && self.alphabet@.contains(a) by {
            let i = listed.index_of((s, a));
            lemma_pair_at(self.states as nat, symbols, i);
        }
    }

    /// A description in which some pair of a state and a symbol has no
    /// transition, and whose start and accepting states are in range, is
    /// refused as not total.
    pub proof fn lemma_missing_pair_refused(
        states: usize,
        start: usize,
        accept: Set<usize>,
        alphabet: Set<char>,
        tfn: Map<(usize, char), usize>,
        s: usize,
        a: char,
    )
        requires
            start < states,
            forall|q: usize| accept.contains(q) ==> q < states,
            s < states,
            alphabet.contains(a),
            !tfn.dom().contains((s, a)),
        ensures
            fault(states, start, accept, alphabet, tfn) == Some(
                DFATypeError::NonTotalTransitionFunction,
            ),
    {
    }

    /// On an input over the alphabet a valid automaton takes a transition at
    /// every symbol and stays within its states.
    pub proof fn lemma_run_in_range(&self, input: Seq<char>)
        requires
            self.wf(),
            forall|i: int| 0 <= i < input.len() ==> self.alphabet().contains(input[i]),
        ensures
            self.run(input).0 < self.state_count(),
            input.len() > 0 ==> self.transitions().dom().contains(
                (self.run(input.drop_last()).0, input.last()),
            ),
        decreases input.len(),
    {
        self.lemma_transition_domain();
        if input.len() > 0 {
            self.lemma_run_in_range(input.drop_last());
        }
    }

    /// The empty input is accepted exactly where the start state is accepting.
    pub proof fn lemma_empty_input(&self)
        ensures
            self.accepts(Seq::<char>::empty()) == self.accept().contains(self.start().0),
    {
    }

    /// Checks a raw description and reports the first invariant it violates.
    pub fn validate(
        states: usize,
        start: usize,
        accept: &HashSet<usize>,
        alphabet: &SymbolSet,
        tfn: &Table<usize>,
    ) -> (verdict: Result<(), DFATypeError>)
        requires
            alphabet.wf(),
            tfn.wf(),
        ensures
            verdict == match fault(states, start, accept@, alphabet@, tfn@) {
                Some(e) => Err::<(), DFATypeError>(e),
                None => Ok(()),
            },
    {
        if !(start < states) {
            return Err(DFATypeError::InvalidStartState);
        }
        if !all_below(accept, states) {
            return Err(DFATypeError::InvalidAcceptState);
        }
        if !covers(states, alphabet, tfn) {
            return Err(DFATypeError::NonTotalTransitionFunction);
        }
        let entries = tfn.len();
        let sized = match states.checked_mul(alphabet.len()) {
            Some(expected) => entries == expected,
            None => false,
        };
        if !sized || !targets_below(tfn, states) {
            return Err(DFATypeError::InvalidTransitionFunction);
        }
        Ok(())
    }

    /// Builds the automaton that a raw description denotes, or reports the
    /// first invariant that the description violates.
    pub fn new(
        states: usize,
        start: usize,
        accept: HashSet<usize>,
        alphabet: SymbolSet,
        tfn: Table<usize>,
    ) -> (built: Result<Self, DFATypeError>)
        requires
            alphabet.wf(),
            tfn.wf(),
        ensures
            match built {
                Ok(dfa) => {
                    &&& fault(states, start, accept@, alphabet@, tfn@) is None
                    &&& dfa.wf()
                    &&& dfa.state_count() == states
                    &&& dfa.start() == State(start)
                    &&& dfa.accept() == accept@
                    &&& dfa.alphabet() == alphabet@
                    &&& dfa.transitions() == tfn@
                },
                Err(e) => fault(states, start, accept@, alphabet@, tfn@) == Some(e),
            },
    {
        match DFA::validate(states, start, &accept, &alphabet, &tfn) {
            Err(e) => Err(e),
            Ok(()) => Ok(DFA { states, start: State(start), accept, alphabet, tfn }),
        }
    }

    /// Reads `input` from the start state and says whether the state reached
    /// is accepting. Symbols are not checked against the alphabet: one
    /// without a transition leaves the state as it is.
    pub fn simulate(&self, input: &String) -> (result: SimulationResult)
        requires
            self.wf(),
        ensures
            result == if self.accepts(input@) {
                SimulationResult::Accepted
            } else {
                SimulationResult::Rejected
            },
    {
        let mut current = self.start;
        assert(input@.take(0).len() == 0);
        for symbol in it: input.as_str().chars()
            invariant
                self.wf(),
                it.seq() == input@,
                current == self.run(input@.take(it.index() as int)),
        {
            let ghost read = input@.take(it.index() as int);
            let ghost more = input@.take(it.index() + 1);
            assert(symbol == input@[it.index() as int]);
            assert(more.drop_last() =~= read && more.last() == symbol);
            match self.tfn.get((current.0, symbol)) {
                Some(target) => {
                    current = State(*target);
                },
                None => {},
            }
        }
        assert(input@.take(input@.len() as int) =~= input@);
        if self.accept.contains(&current.0) {
            SimulationResult::Accepted
        } else {
            SimulationResult::Rejected
        }
    }
}

} // verus!
