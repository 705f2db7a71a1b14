use pomona::rewrite::stream::StreamError;
use pomona::rewrite::{native_outcome, NativeFailure};

#[test]
fn native_outcome_reports_the_first_failure() {
    assert_eq!(native_outcome(Ok(3), 0, 0), Ok(3));
    assert_eq!(native_outcome(Err(StreamError::Truncated), 1, 1), Err(NativeFailure::Stream(StreamError::Truncated)));
    assert_eq!(native_outcome(Ok(3), 128, 1), Err(NativeFailure::Export(128)));
    assert_eq!(native_outcome(Ok(3), 0, -1), Err(NativeFailure::Import(-1)));
}
