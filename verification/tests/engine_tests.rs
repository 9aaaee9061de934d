use regexp_automaton::combinators::ConcatNfa;
use regexp_automaton::combinators::StarNfa;
use regexp_automaton::combinators::UnionNfa;
use regexp_automaton::error::MatchError;
use regexp_automaton::lazy_nfa::run_lazy;
use regexp_automaton::nfa::Nfa;
use regexp_automaton::nfa::State;

fn state(initial: bool, accepted: bool, transitions: Vec<(Option<char>, Vec<usize>)>) -> State {
    State { initial, accepted, transitions }
}

// Accepts exactly the one-symbol string holding `c`; recognizes 'a', 'b'
// and 'c'.
fn just(c: char) -> Nfa {
    Nfa::new(
        vec!['a', 'b', 'c'],
        vec![
            state(true, false, vec![(Some(c), vec![1])]),
            state(false, true, vec![]),
        ],
    )
    .unwrap()
}

// Accepts exactly the empty string; recognizes 'a', 'b' and 'c'.
fn just_empty() -> Nfa {
    Nfa::new(vec!['a', 'b', 'c'], vec![state(true, true, vec![])]).unwrap()
}

// Union semantics on concrete values: "a" or "b", and nothing else.
#[test]
fn union_composite_accepts_either_branch() {
    let u = UnionNfa { left: just('a'), right: just('b') };
    assert_eq!(run_lazy(&u, "a"), Ok(true));
    assert_eq!(run_lazy(&u, "b"), Ok(true));
    assert_eq!(run_lazy(&u, "c"), Ok(false));
    assert_eq!(run_lazy(&u, ""), Ok(false));
    assert_eq!(run_lazy(&u, "ab"), Ok(false));
}

// Concat semantics on concrete values: exactly the split "a" then "b".
#[test]
fn concat_composite_needs_both_parts() {
    let k = ConcatNfa { left: just('a'), right: just('b') };
    assert_eq!(run_lazy(&k, "ab"), Ok(true));
    assert_eq!(run_lazy(&k, "a"), Ok(false));
    assert_eq!(run_lazy(&k, "b"), Ok(false));
    assert_eq!(run_lazy(&k, ""), Ok(false));
    assert_eq!(run_lazy(&k, "ba"), Ok(false));
    assert_eq!(run_lazy(&k, "abb"), Ok(false));
}

// A left operand that accepts the empty prefix hands the right operand
// its start configurations immediately.
#[test]
fn concat_composite_empty_prefix() {
    let k = ConcatNfa { left: just_empty(), right: just('b') };
    assert_eq!(run_lazy(&k, "b"), Ok(true));
    assert_eq!(run_lazy(&k, ""), Ok(false));
    assert_eq!(run_lazy(&k, "a"), Ok(false));
}

// Star semantics on concrete values: the empty string and every
// repetition of the piece.
#[test]
fn star_composite_accepts_repetitions() {
    let s = StarNfa { inner: just('a') };
    assert_eq!(run_lazy(&s, ""), Ok(true));
    assert_eq!(run_lazy(&s, "a"), Ok(true));
    assert_eq!(run_lazy(&s, "aaa"), Ok(true));
    assert_eq!(run_lazy(&s, "b"), Ok(false));
    assert_eq!(run_lazy(&s, "ab"), Ok(false));
}

// Star over a two-symbol piece: only whole pieces count.
#[test]
fn star_composite_two_symbol_piece() {
    let piece = ConcatNfa { left: just('a'), right: just('b') };
    let s = StarNfa { inner: piece };
    assert_eq!(run_lazy(&s, ""), Ok(true));
    assert_eq!(run_lazy(&s, "ab"), Ok(true));
    assert_eq!(run_lazy(&s, "abab"), Ok(true));
    assert_eq!(run_lazy(&s, "aba"), Ok(false));
    assert_eq!(run_lazy(&s, "ba"), Ok(false));
}

// A deeply nested composite: (a|b)* then c.
#[test]
fn nested_composite() {
    let inner = UnionNfa { left: just('a'), right: just('b') };
    let m = ConcatNfa { left: StarNfa { inner }, right: just('c') };
    assert_eq!(run_lazy(&m, "c"), Ok(true));
    assert_eq!(run_lazy(&m, "abc"), Ok(true));
    assert_eq!(run_lazy(&m, "babaac"), Ok(true));
    assert_eq!(run_lazy(&m, "ab"), Ok(false));
    assert_eq!(run_lazy(&m, "cb"), Ok(false));
}

// A symbol no branch recognizes fails at the step where it is consumed,
// naming the symbol and its position.
#[test]
fn engine_unknown_symbol_error() {
    let u = UnionNfa { left: just('a'), right: just('b') };
    assert_eq!(
        run_lazy(&u, "z"),
        Err(MatchError::UnknownSymbol { symbol: 'z', position: 0 })
    );
    assert_eq!(
        run_lazy(&u, "az"),
        Err(MatchError::UnknownSymbol { symbol: 'z', position: 1 })
    );
}
