use regexp_automaton::dfa::Dfa;
use regexp_automaton::error::MatchError;
use regexp_automaton::error::ValidationError;

fn tr(array: &[(char, Vec<usize>)]) -> Vec<(char, Vec<usize>)> {
    array.to_vec()
}

#[test]
fn test_run() {
    let dfa = Dfa::new(
        3,
        0,
        vec![true, false, false],
        tr(&[('0', vec![0, 2, 1]), ('1', vec![1, 0, 2])]),
    )
    .unwrap();

    assert_eq!(dfa.size(), 3);

    assert_eq!(dfa.run("1"), Ok(false));
    assert_eq!(dfa.run("10"), Ok(false));
    assert_eq!(dfa.run("11"), Ok(true));
    assert_eq!(dfa.run("000"), Ok(true));
}

#[test]
fn test_new_fail() {
    assert!(matches!(
        Dfa::new(
            3,
            4,
            vec![true, false, false],
            tr(&[('0', vec![0, 2, 1]), ('1', vec![1, 0, 2])]),
        ),
        Err(_)
    ));

    assert!(matches!(
        Dfa::new(
            3,
            0,
            vec![true, false],
            tr(&[('0', vec![0, 2, 1]), ('1', vec![1, 0, 2])]),
        ),
        Err(_)
    ));

    assert!(matches!(
        Dfa::new(
            3,
            4,
            vec![true, false, false],
            tr(&[('0', vec![0, 2, 1]), ('1', vec![1, 0, 2, 3])]),
        ),
        Err(_)
    ));
}

#[test]
fn test_run_fail() {
    let dfa = Dfa::new(
        3,
        0,
        vec![true, false, false],
        tr(&[('0', vec![0, 2, 1]), ('1', vec![1, 0, 2])]),
    )
    .unwrap();

    assert!(matches!(dfa.run("00a1"), Err(_)));
}

// The mod-3 automaton over {0, 1}: accepts exactly the binary strings
// whose value is divisible by three.
#[test]
fn mod3_scenario() {
    let dfa = Dfa::new(
        3,
        0,
        vec![true, false, false],
        tr(&[('0', vec![0, 2, 1]), ('1', vec![1, 0, 2])]),
    )
    .unwrap();

    assert_eq!(dfa.run("0"), Ok(true));
    assert_eq!(dfa.run("1"), Ok(false));
    assert_eq!(dfa.run("11"), Ok(true));
}

// A table missing one entry for one alphabet symbol in one state is
// rejected at construction, with the error naming the short row.
#[test]
fn missing_totality_entry_fails() {
    let r = Dfa::new(
        3,
        0,
        vec![true, false, false],
        tr(&[('0', vec![0, 2, 1]), ('1', vec![1, 0])]),
    );
    assert_eq!(
        r.err().unwrap(),
        ValidationError::RowLengthMismatch { symbol: '1', len: 2, size: 3 }
    );
}

// A failed run names the offending symbol and its position, and the
// automaton stays usable afterwards.
#[test]
fn run_fail_names_symbol_and_position() {
    let dfa = Dfa::new(
        3,
        0,
        vec![true, false, false],
        tr(&[('0', vec![0, 2, 1]), ('1', vec![1, 0, 2])]),
    )
    .unwrap();

    assert_eq!(
        dfa.run("00a1"),
        Err(MatchError::UnknownSymbol { symbol: 'a', position: 2 })
    );
    assert_eq!(dfa.run("00"), Ok(true));
}

// The alphabet accessor reports exactly the symbols that label rows.
#[test]
fn dfa_alphabet_accessor() {
    let dfa = Dfa::new(
        3,
        0,
        vec![true, false, false],
        tr(&[('0', vec![0, 2, 1]), ('1', vec![1, 0, 2])]),
    )
    .unwrap();
    let mut a = dfa.alphabet();
    a.sort();
    assert_eq!(a, vec!['0', '1']);
}

// An out-of-range transition target is rejected at construction.
#[test]
fn target_out_of_range_fails() {
    let r = Dfa::new(
        2,
        0,
        vec![true, false],
        tr(&[('0', vec![0, 5])]),
    );
    assert_eq!(r.err().unwrap(), ValidationError::TargetOutOfRange { target: 5, size: 2 });
}

// Two rows for one symbol are rejected at construction.
#[test]
fn duplicate_symbol_fails() {
    let r = Dfa::new(
        2,
        0,
        vec![true, false],
        tr(&[('0', vec![0, 1]), ('0', vec![1, 0])]),
    );
    assert_eq!(r.err().unwrap(), ValidationError::DuplicateSymbol { symbol: '0' });
}
