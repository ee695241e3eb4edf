use udp_hole_punching::file_transfer::receive::SendComplete;
use udp_hole_punching::file_transfer::send::SendRequest;
use udp_hole_punching::operation::{Retry, Timeout, RETRY_COUNT, RETRY_DURATION};

#[test]
fn retry_constants() {
    assert_eq!(RETRY_COUNT, 3);
    assert_eq!(RETRY_DURATION, 150_000_000);
}

#[test]
fn three_more_attempts_then_failure() {
    let mut op = SendRequest::new("f".to_string(), 1);
    let mut retry = Retry::new();
    assert_eq!(retry.attempt, 0);
    assert_eq!(retry.on_timeout(&mut op), Timeout::Poll);
    assert_eq!(retry.attempt, 1);
    assert_eq!(retry.on_timeout(&mut op), Timeout::Poll);
    assert_eq!(retry.on_timeout(&mut op), Timeout::Poll);
    assert_eq!(retry.attempt, 3);
    assert_eq!(retry.on_timeout(&mut op), Timeout::TimedOut);
    assert_eq!(retry.attempt, 3);
    assert_eq!(retry.on_timeout(&mut op), Timeout::TimedOut);
}

#[test]
fn operation_with_a_result_ends_with_it() {
    let mut op = SendComplete {};
    let mut retry = Retry::new();
    for _ in 0..3 {
        assert_eq!(retry.on_timeout(&mut op), Timeout::Poll);
    }
    assert_eq!(retry.on_timeout(&mut op), Timeout::Done(()));
}
