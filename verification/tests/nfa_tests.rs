use regexp_automaton::error::MatchError;
use regexp_automaton::error::ValidationError;
use regexp_automaton::error::soft_assert;
use regexp_automaton::nfa::Nfa;
use regexp_automaton::nfa::State;

fn state(initial: bool, accepted: bool, transitions: Vec<(Option<char>, Vec<usize>)>) -> State {
    State { initial, accepted, transitions }
}

// Accepts exactly the strings of 'a's and 'b's ending in 'b'.
fn ends_in_b() -> Nfa {
    Nfa::new(
        vec!['a', 'b'],
        vec![
            state(
                true,
                false,
                vec![(Some('a'), vec![0]), (Some('b'), vec![0, 1])],
            ),
            state(false, true, vec![]),
        ],
    )
    .unwrap()
}

#[test]
fn nfa_run_accepts_and_rejects() {
    let nfa = ends_in_b();
    assert_eq!(nfa.run(""), Ok(false));
    assert_eq!(nfa.run("b"), Ok(true));
    assert_eq!(nfa.run("aab"), Ok(true));
    assert_eq!(nfa.run("aba"), Ok(false));
    assert_eq!(nfa.run("abab"), Ok(true));
}

// An input symbol outside the declared alphabet is an unknown-symbol
// error at the position where it is consumed, not a panic and not a
// silent rejection.
#[test]
fn nfa_unknown_symbol_is_an_error() {
    let nfa = ends_in_b();
    assert_eq!(
        nfa.run("abxb"),
        Err(MatchError::UnknownSymbol { symbol: 'x', position: 2 })
    );
    assert_eq!(nfa.run("ab"), Ok(true));
}

// A transition on a symbol outside the declared alphabet fails
// construction.
#[test]
fn nfa_symbol_outside_alphabet_fails() {
    let r = Nfa::new(
        vec!['a'],
        vec![state(true, true, vec![(Some('z'), vec![0])])],
    );
    assert_eq!(r.err().unwrap(), ValidationError::SymbolOutsideAlphabet { symbol: 'z' });
}

// A transition target outside the state array fails construction.
#[test]
fn nfa_target_out_of_range_fails() {
    let r = Nfa::new(
        vec!['a'],
        vec![state(true, true, vec![(Some('a'), vec![7])])],
    );
    assert_eq!(r.err().unwrap(), ValidationError::TargetOutOfRange { target: 7, size: 1 });
}

// Epsilon-closure is not available yet: running an automaton that holds
// an epsilon edge fails fast instead of silently skipping the edge.
#[test]
fn nfa_epsilon_edges_fail_fast() {
    let nfa = Nfa::new(
        vec!['a'],
        vec![
            state(true, false, vec![(None, vec![1])]),
            state(false, true, vec![]),
        ],
    )
    .unwrap();
    assert_eq!(nfa.run("a"), Err(MatchError::UnsupportedFeature));

    let mut nfa = nfa;
    assert_eq!(nfa.resolve_eps(), Err(MatchError::UnsupportedFeature));
}

// States and edges can be added after construction, with the same
// validation; a duplicate edge is refused.
#[test]
fn nfa_add_state_and_transition() {
    let mut nfa = Nfa::new(vec!['a'], vec![state(true, true, vec![])]).unwrap();
    assert_eq!(nfa.add_state(), Ok(1));
    assert_eq!(nfa.add_transition(Some('a'), 0, 1), Ok(()));
    assert_eq!(
        nfa.add_transition(Some('a'), 0, 1),
        Err(ValidationError::DuplicateEdge { from: 0, to: 1 })
    );
    assert_eq!(
        nfa.add_transition(Some('q'), 0, 1),
        Err(ValidationError::SymbolOutsideAlphabet { symbol: 'q' })
    );
    assert_eq!(
        nfa.add_transition(Some('a'), 5, 1),
        Err(ValidationError::StateOutOfRange { state: 5, size: 2 })
    );
    assert_eq!(nfa.run("a"), Ok(false));
    assert_eq!(nfa.run(""), Ok(true));
}

// The read accessors report the declared size and alphabet.
#[test]
fn nfa_accessors() {
    let nfa = ends_in_b();
    assert_eq!(nfa.size(), 2);
    assert_eq!(nfa.alphabet(), vec!['a', 'b']);
}

#[test]
fn soft_assert_returns_the_error() {
    assert_eq!(soft_assert(true, "boom"), Ok(()));
    assert_eq!(soft_assert(false, "boom"), Err("boom"));
}
