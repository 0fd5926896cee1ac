use finite_automata::nfa::{InputError, NFATypeError, SimulationResult, EPSILON, NFA};
use finite_automata::sets::SymbolSet;
use finite_automata::table::Table;
use std::collections::HashSet;

fn symbols(items: Vec<char>) -> SymbolSet {
    SymbolSet::from_vec(items)
}

/// Over {0, 1}: accepts the inputs that end in "11".
fn ends_in_11() -> NFA {
    let mut tfn = Table::new();
    tfn.insert((0, '0'), HashSet::from([0]));
    tfn.insert((0, '1'), HashSet::from([0, 1]));
    tfn.insert((1, '1'), HashSet::from([2]));
    NFA::new(3, 0, HashSet::from([2]), symbols(vec!['0', '1']), tfn).unwrap()
}

#[test]
fn good_nfa_succeeds() {
    let _ = NFA::new(1, 0, HashSet::new(), SymbolSet::new(), Table::new()).unwrap();
    assert!(true);
}

#[test]
fn nfa_invalid_start_state_fails() {
    let bad_nfa = NFA::new(0, 0, HashSet::new(), SymbolSet::new(), Table::new());
    assert!(matches!(bad_nfa, Err(NFATypeError::InvalidStartState)));
}

#[test]
fn nfa_invalid_accept_state_fails() {
    let bad_nfa = NFA::new(1, 0, HashSet::from([1]), SymbolSet::new(), Table::new());
    assert!(matches!(bad_nfa, Err(NFATypeError::InvalidAcceptState)));
}

#[test]
fn nfa_invalid_transition_fn_bad_state_in_domain_fails() {
    let mut tfn = Table::new();
    tfn.insert((0, '0'), HashSet::from([1]));
    tfn.insert((0, '1'), HashSet::from([1]));
    tfn.insert((1, '0'), HashSet::from([0]));
    tfn.insert((1, '1'), HashSet::from([0]));

    tfn.insert((2, '0'), HashSet::from([1]));
    let bad_nfa = NFA::new(2, 0, HashSet::from([0]), symbols(vec!['0', '1']), tfn);
    assert!(matches!(
        bad_nfa,
        Err(NFATypeError::InvalidTransitionFunction)
    ));
}

#[test]
fn nfa_invalid_transition_fn_bad_alphabet_in_domain_fails() {
    let mut tfn = Table::new();
    tfn.insert((0, '0'), HashSet::from([1]));
    tfn.insert((0, EPSILON), HashSet::from([1]));
    tfn.insert((1, '0'), HashSet::from([0]));
    tfn.insert((1, '1'), HashSet::from([0]));
    tfn.insert((0, '2'), HashSet::from([0]));
    let bad_nfa = NFA::new(2, 0, HashSet::from([0]), symbols(vec!['0', '1']), tfn);
    assert!(matches!(
        bad_nfa,
        Err(NFATypeError::InvalidTransitionFunction)
    ));
}

#[test]
fn nfa_invalid_transition_fn_bad_state_in_range_fails() {
    let mut tfn = Table::new();
    tfn.insert((0, '0'), HashSet::from([1]));
    tfn.insert((0, '1'), HashSet::from([2]));
    tfn.insert((1, '0'), HashSet::from([0]));
    tfn.insert((1, '1'), HashSet::from([0]));
    let bad_nfa = NFA::new(2, 0, HashSet::from([0]), symbols(vec!['0', '1']), tfn);
    assert!(matches!(
        bad_nfa,
        Err(NFATypeError::InvalidTransitionFunction)
    ));
}

#[test]
fn epsilon_closure_is_correct() {
    let mut tfn = Table::new();
    tfn.insert((0, EPSILON), HashSet::from([1]));
    tfn.insert((0, '1'), HashSet::from([1]));
    tfn.insert((1, EPSILON), HashSet::from([2, 3]));
    tfn.insert((1, '1'), HashSet::from([0]));
    let nfa = NFA::new(4, 0, HashSet::from([0]), symbols(vec!['0', '1']), tfn).unwrap();

    let ec0 = nfa.epsilon_closure(&HashSet::from([0]));
    let ec1 = nfa.epsilon_closure(&HashSet::from([1]));
    let ec2 = nfa.epsilon_closure(&HashSet::from([2]));

    assert_eq!(ec0, HashSet::from([0, 1, 2, 3]));
    assert_eq!(ec1, HashSet::from([1, 2, 3]));
    assert_eq!(ec2, HashSet::from([2]));
}

#[test]
fn simulate_fails_on_invalid_input() {
    let mut tfn = Table::new();
    tfn.insert((0, '0'), HashSet::from([1]));
    tfn.insert((0, '1'), HashSet::from([1]));
    tfn.insert((1, '0'), HashSet::from([0]));
    tfn.insert((1, '1'), HashSet::from([0]));
    let nfa = NFA::new(2, 0, HashSet::from([0]), symbols(vec!['0', '1']), tfn).unwrap();

    let input = String::from("00a11");

    let sim = nfa.simulate(&input);
    assert!(matches!(sim, Err(InputError::InvalidSymbol)));
}

#[test]
fn simulate_accepts_string_ending_with_11() {
    let mut tfn = Table::new();
    tfn.insert((0, '0'), HashSet::from([0]));
    tfn.insert((0, '1'), HashSet::from([0, 1]));
    tfn.insert((1, '1'), HashSet::from([2]));
    let nfa = NFA::new(3, 0, HashSet::from([2]), symbols(vec!['0', '1']), tfn).unwrap();

    let input = String::from("0011");

    let sim = nfa.simulate(&input);
    assert!(matches!(sim, Ok(SimulationResult::Accepted)));
}

#[test]
fn simulate_rejects_strings_not_ending_in_11() {
    let mut tfn = Table::new();
    tfn.insert((0, '0'), HashSet::from([0]));
    tfn.insert((0, '1'), HashSet::from([0, 1]));
    tfn.insert((1, '1'), HashSet::from([2]));
    let nfa = NFA::new(3, 0, HashSet::from([2]), symbols(vec!['0', '1']), tfn).unwrap();

    let sim = nfa.simulate(&String::from("0000"));
    assert!(matches!(sim, Ok(SimulationResult::Rejected)));
    let sim = nfa.simulate(&String::from("0001"));
    assert!(matches!(sim, Ok(SimulationResult::Rejected)));
    let sim = nfa.simulate(&String::from("0010"));
    assert!(matches!(sim, Ok(SimulationResult::Rejected)));
    let sim = nfa.simulate(&String::from(""));
    assert!(matches!(sim, Ok(SimulationResult::Rejected)));
}

#[test]
fn reserved_symbol_in_alphabet_fails() {
    let bad_nfa = NFA::new(1, 0, HashSet::new(), symbols(vec!['a', EPSILON]), Table::new());
    assert!(matches!(
        bad_nfa,
        Err(NFATypeError::ReservedCharacterInAlphabet)
    ));
    let only_epsilon = NFA::new(1, 0, HashSet::from([0]), symbols(vec!['~']), Table::new());
    assert!(matches!(
        only_epsilon,
        Err(NFATypeError::ReservedCharacterInAlphabet)
    ));
}

#[test]
fn nfa_errors_come_in_order() {
    // A bad start state is reported before anything else.
    let start_first = NFA::new(1, 1, HashSet::from([3]), symbols(vec![EPSILON]), Table::new());
    assert!(matches!(start_first, Err(NFATypeError::InvalidStartState)));

    // A bad accepting state is reported before the reserved symbol.
    let accept_first = NFA::new(1, 0, HashSet::from([3]), symbols(vec![EPSILON]), Table::new());
    assert!(matches!(accept_first, Err(NFATypeError::InvalidAcceptState)));

    // The reserved symbol is reported before a bad transition.
    let mut tfn = Table::new();
    tfn.insert((9, 'x'), HashSet::from([9]));
    let reserved_first = NFA::new(1, 0, HashSet::new(), symbols(vec![EPSILON]), tfn);
    assert!(matches!(
        reserved_first,
        Err(NFATypeError::ReservedCharacterInAlphabet)
    ));
}

#[test]
fn validate_nfa_reports_without_building() {
    let accept = HashSet::from([1]);
    let alphabet = symbols(vec!['a']);
    let mut tfn = Table::new();
    tfn.insert((0, 'a'), HashSet::from([1]));
    tfn.insert((1, EPSILON), HashSet::from([0]));
    assert_eq!(NFA::validate_nfa(2, 0, &accept, &alphabet, &tfn), Ok(()));
    assert_eq!(
        NFA::validate_nfa(1, 0, &accept, &alphabet, &tfn),
        Err(NFATypeError::InvalidAcceptState)
    );
    assert_eq!(
        NFA::validate_nfa(2, 0, &HashSet::new(), &SymbolSet::new(), &tfn),
        Err(NFATypeError::InvalidTransitionFunction)
    );
}

#[test]
fn partial_transitions_are_valid() {
    let mut tfn = Table::new();
    tfn.insert((0, 'a'), HashSet::new());
    let nfa = NFA::new(2, 0, HashSet::from([1]), symbols(vec!['a', 'b']), tfn).unwrap();
    assert_eq!(
        nfa.simulate(&String::from("a")),
        Ok(SimulationResult::Rejected)
    );
    assert_eq!(
        nfa.simulate(&String::from("b")),
        Ok(SimulationResult::Rejected)
    );
}

#[test]
fn validate_input_checks_every_symbol() {
    let nfa = ends_in_11();
    assert_eq!(nfa.validate_input(&String::from("")), Ok(()));
    assert_eq!(nfa.validate_input(&String::from("0101")), Ok(()));
    assert_eq!(
        nfa.validate_input(&String::from("a0101")),
        Err(InputError::InvalidSymbol)
    );
    assert_eq!(
        nfa.validate_input(&String::from("0101a")),
        Err(InputError::InvalidSymbol)
    );
    assert_eq!(
        nfa.validate_input(&String::from("01é01")),
        Err(InputError::InvalidSymbol)
    );
}

#[test]
fn epsilon_is_no_input_symbol() {
    let mut tfn = Table::new();
    tfn.insert((0, EPSILON), HashSet::from([1]));
    tfn.insert((1, 'a'), HashSet::from([1]));
    let nfa = NFA::new(2, 0, HashSet::from([1]), symbols(vec!['a']), tfn).unwrap();
    assert_eq!(
        nfa.simulate(&String::from("~")),
        Err(InputError::InvalidSymbol)
    );
    assert_eq!(
        nfa.simulate(&String::from("a~a")),
        Err(InputError::InvalidSymbol)
    );
    assert_eq!(
        nfa.simulate(&String::from("aa")),
        Ok(SimulationResult::Accepted)
    );
}

#[test]
fn invalid_input_leaves_the_automaton_as_it_was() {
    let used = ends_in_11();
    assert!(matches!(
        used.simulate(&String::from("00a11")),
        Err(InputError::InvalidSymbol)
    ));
    assert!(matches!(
        used.simulate(&String::from("11a")),
        Err(InputError::InvalidSymbol)
    ));
    let fresh = ends_in_11();
    for input in ["0011", "0000", "0001", "0010", "", "11", "1"] {
        let text = String::from(input);
        assert_eq!(used.simulate(&text), fresh.simulate(&text));
    }
    assert_eq!(
        used.simulate(&String::from("0011")),
        Ok(SimulationResult::Accepted)
    );
    assert_eq!(
        used.simulate(&String::from("0010")),
        Ok(SimulationResult::Rejected)
    );
}

#[test]
fn epsilon_cycles_end() {
    let mut tfn = Table::new();
    tfn.insert((0, EPSILON), HashSet::from([1]));
    tfn.insert((1, EPSILON), HashSet::from([2]));
    tfn.insert((2, EPSILON), HashSet::from([0, 2]));
    tfn.insert((2, 'a'), HashSet::from([3]));
    let nfa = NFA::new(4, 0, HashSet::from([3]), symbols(vec!['a']), tfn).unwrap();

    let closed = nfa.epsilon_closure(&HashSet::from([1]));
    assert_eq!(closed, HashSet::from([0, 1, 2]));
    assert_eq!(
        nfa.simulate(&String::from("a")),
        Ok(SimulationResult::Accepted)
    );
    assert_eq!(
        nfa.simulate(&String::from("")),
        Ok(SimulationResult::Rejected)
    );
    assert_eq!(
        nfa.simulate(&String::from("aa")),
        Ok(SimulationResult::Rejected)
    );
}

#[test]
fn epsilon_closure_of_several_states() {
    let mut tfn = Table::new();
    tfn.insert((0, EPSILON), HashSet::from([1]));
    tfn.insert((2, EPSILON), HashSet::from([3]));
    tfn.insert((4, 'a'), HashSet::from([0]));
    let nfa = NFA::new(5, 0, HashSet::new(), symbols(vec!['a']), tfn).unwrap();

    let none = nfa.epsilon_closure(&HashSet::new());
    assert!(none.is_empty());

    let both = nfa.epsilon_closure(&HashSet::from([0, 2, 0]));
    assert_eq!(
        both,
        HashSet::from([0, 1, 2, 3])
    );

    let alone = nfa.epsilon_closure(&HashSet::from([4]));
    assert_eq!(alone, HashSet::from([4]));
}

#[test]
fn epsilon_closure_is_idempotent() {
    let mut tfn = Table::new();
    tfn.insert((0, EPSILON), HashSet::from([1]));
    tfn.insert((1, EPSILON), HashSet::from([2, 3]));
    let nfa = NFA::new(4, 0, HashSet::new(), SymbolSet::new(), tfn).unwrap();
    let once = nfa.epsilon_closure(&HashSet::from([0]));
    let twice = nfa.epsilon_closure(&once);
    assert_eq!(once, twice);
}

#[test]
fn silent_moves_after_the_last_symbol_count() {
    let mut tfn = Table::new();
    tfn.insert((0, 'a'), HashSet::from([1]));
    tfn.insert((1, EPSILON), HashSet::from([2]));
    let nfa = NFA::new(3, 0, HashSet::from([2]), symbols(vec!['a']), tfn).unwrap();
    assert_eq!(
        nfa.simulate(&String::from("a")),
        Ok(SimulationResult::Accepted)
    );
    assert_eq!(
        nfa.simulate(&String::from("")),
        Ok(SimulationResult::Rejected)
    );
}

#[test]
fn silent_moves_before_the_first_symbol_count() {
    let mut tfn = Table::new();
    tfn.insert((0, EPSILON), HashSet::from([1]));
    tfn.insert((1, 'a'), HashSet::from([2]));
    let nfa = NFA::new(3, 0, HashSet::from([1, 2]), symbols(vec!['a']), tfn).unwrap();
    assert_eq!(
        nfa.simulate(&String::from("")),
        Ok(SimulationResult::Accepted)
    );
    assert_eq!(
        nfa.simulate(&String::from("a")),
        Ok(SimulationResult::Accepted)
    );
    assert_eq!(
        nfa.simulate(&String::from("aa")),
        Ok(SimulationResult::Rejected)
    );
}

#[test]
fn simulation_goes_on_with_no_state_left() {
    let nfa = ends_in_11();
    let mut tfn = Table::new();
    tfn.insert((0, 'a'), HashSet::from([1]));
    let dead_end = NFA::new(2, 0, HashSet::from([1]), symbols(vec!['a', 'b']), tfn).unwrap();
    assert_eq!(
        dead_end.simulate(&String::from("a")),
        Ok(SimulationResult::Accepted)
    );
    assert_eq!(
        dead_end.simulate(&String::from("ba")),
        Ok(SimulationResult::Rejected)
    );
    assert_eq!(
        dead_end.simulate(&String::from("abab")),
        Ok(SimulationResult::Rejected)
    );
    assert_eq!(
        nfa.simulate(&String::from("110")),
        Ok(SimulationResult::Rejected)
    );
    assert_eq!(
        nfa.simulate(&String::from("1111")),
        Ok(SimulationResult::Accepted)
    );
}
