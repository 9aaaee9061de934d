use regexp_automaton::error::ValidationError;
use regexp_automaton::monoid::Monoid;

#[test]
fn test_basic() {
    let monoid = Monoid::new(2, vec![vec![0, 1], vec![1, 0]]).unwrap();
    assert_eq!(monoid.op(1, 0), Ok(1))
}

#[test]
fn test_missing_domain() {
    assert!(matches!(Monoid::new(1, vec![vec![0, 1], vec![1, 0]]), Err(_)));
}

#[test]
fn test_missing_operation() {
    assert!(matches!(Monoid::new(2, vec![vec![0]]), Err(_)));
}

// The construction errors carry the offending counts.
#[test]
fn monoid_errors_name_the_mismatch() {
    assert_eq!(
        Monoid::new(1, vec![vec![0, 1], vec![1, 0]]).err().unwrap(),
        ValidationError::RowCountMismatch { len: 2, size: 1 }
    );
    assert_eq!(
        Monoid::new(2, vec![vec![0, 1], vec![1]]).err().unwrap(),
        ValidationError::MatrixRowLengthMismatch { row: 1, len: 1, size: 2 }
    );
    let monoid = Monoid::new(2, vec![vec![0, 1], vec![1, 0]]).unwrap();
    assert_eq!(monoid.size(), 2);
}
