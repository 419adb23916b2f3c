use replibyte::error::StoreError;
use replibyte::retry::{RetryDecision, RetryPolicy};

fn policy() -> RetryPolicy {
    RetryPolicy { max_retries: 5, base_delay_ms: 100, max_delay_ms: 1000 }
}

#[test]
fn delays_double_up_to_the_ceiling() {
    let p = policy();
    let delays: Vec<RetryDecision> = (0..5).map(|i| p.decide(i, StoreError::Retryable)).collect();
    assert_eq!(
        delays,
        vec![
            RetryDecision::RetryAfter { delay_ms: 100 },
            RetryDecision::RetryAfter { delay_ms: 200 },
            RetryDecision::RetryAfter { delay_ms: 400 },
            RetryDecision::RetryAfter { delay_ms: 800 },
            RetryDecision::RetryAfter { delay_ms: 1000 },
        ]
    );
}

#[test]
fn retries_are_bounded() {
    let p = policy();
    assert_eq!(p.decide(5, StoreError::Retryable), RetryDecision::GiveUp);
    assert_eq!(p.decide(u32::MAX, StoreError::Retryable), RetryDecision::GiveUp);
    let never = RetryPolicy { max_retries: 0, ..policy() };
    assert_eq!(never.decide(0, StoreError::Retryable), RetryDecision::GiveUp);
}

#[test]
fn lasting_failures_are_never_retried() {
    assert_eq!(policy().decide(0, StoreError::Fatal), RetryDecision::GiveUp);
    assert_eq!(policy().decide(3, StoreError::Fatal), RetryDecision::GiveUp);
}

#[test]
fn base_delay_above_the_ceiling_is_cut_to_it() {
    let p = RetryPolicy { max_retries: 3, base_delay_ms: 5000, max_delay_ms: 1000 };
    assert_eq!(p.decide(0, StoreError::Retryable), RetryDecision::RetryAfter { delay_ms: 1000 });
    assert_eq!(p.decide(2, StoreError::Retryable), RetryDecision::RetryAfter { delay_ms: 1000 });
}

#[test]
fn large_delays_do_not_overflow() {
    let p = RetryPolicy { max_retries: u32::MAX, base_delay_ms: u64::MAX / 2 + 1, max_delay_ms: u64::MAX };
    assert_eq!(p.decide(0, StoreError::Retryable), RetryDecision::RetryAfter { delay_ms: u64::MAX / 2 + 1 });
    assert_eq!(p.decide(1, StoreError::Retryable), RetryDecision::RetryAfter { delay_ms: u64::MAX });
    assert_eq!(p.decide(200, StoreError::Retryable), RetryDecision::RetryAfter { delay_ms: u64::MAX });
    let zero = RetryPolicy { max_retries: 9, base_delay_ms: 0, max_delay_ms: 50 };
    assert_eq!(zero.decide(8, StoreError::Retryable), RetryDecision::RetryAfter { delay_ms: 0 });
}
