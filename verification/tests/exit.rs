use ratto::exit::{AppError, ABORTED, FAILURE, OK, TIMEOUT};

#[test]
fn code_per_variant() {
    assert_eq!(AppError::Fail(anyhow::Error::msg("boom")).code(), 1);
    assert_eq!(AppError::NoSelection.code(), 1);
    assert_eq!(AppError::Aborted.code(), 130);
    // With or without a detail, a timeout is 124.
    assert_eq!(AppError::Timeout(None).code(), 124);
    assert_eq!(AppError::Timeout(Some(anyhow::Error::msg("x"))).code(), 124);
    assert_eq!(AppError::Child(7).code(), 7);
}

#[test]
fn from_anyhow_is_fail() {
    let err: AppError = anyhow::Error::msg("boom").into();
    assert_eq!(err.code(), 1);
    assert!(matches!(err, AppError::Fail(_)));
}

#[test]
fn constants() {
    assert_eq!(OK, 0);
    assert_eq!(FAILURE, 1);
    assert_eq!(TIMEOUT, 124);
    assert_eq!(ABORTED, 130);
}

#[test]
fn a_child_code_passes_through_even_when_negative() {
    assert_eq!(AppError::Child(-3).code(), -3);
    assert_eq!(AppError::Child(0).code(), 0);
}
