use word_ladder::solver::SolveError;

#[test]
fn each_failure_has_its_message() {
    assert_eq!(
        SolveError::LengthMismatch.message(),
        "Both words must be of the same length"
    );
    assert_eq!(SolveError::NoSolution.message(), "There is no solution");
    assert_eq!(
        SolveError::NoWordsOfLength.message(),
        "The dictionary has no word of that length"
    );
}

#[test]
fn failures_compare_by_kind() {
    assert_eq!(SolveError::NoSolution, SolveError::NoSolution);
    assert_ne!(SolveError::NoSolution, SolveError::LengthMismatch);
    assert_ne!(SolveError::NoWordsOfLength, SolveError::LengthMismatch);
}
