use ics721_proxy::rate_limit::limit_check;
use ics721_proxy::rate_limit::CallerRateState;
use ics721_proxy::rate_limit::Rate;
use ics721_proxy::rate_limit::RateLimitError;
use ics721_proxy::rate_limit::RateLimiter;

#[test]
fn per_block_three_calls_then_exceeded() {
    let mut limiter = RateLimiter::new();
    limiter.init(Rate::PerBlock(3)).unwrap();
    let caller = "caller".to_string();
    let h: u64 = 100;

    limiter.limit(h, &caller).unwrap();
    limiter.limit(h, &caller).unwrap();
    limiter.limit(h, &caller).unwrap();
    assert_eq!(limiter.limit(h, &caller), Err(RateLimitError::Exceeded));
    // The counter resets in the next block.
    limiter.limit(h + 1, &caller).unwrap();
}

#[test]
fn blocks_requires_five_block_gap() {
    let mut limiter = RateLimiter::new();
    limiter.init(Rate::Blocks(5)).unwrap();
    let caller = "caller".to_string();
    let h: u64 = 100;

    limiter.limit(h, &caller).unwrap();
    for d in 1..5 {
        assert_eq!(limiter.limit(h + d, &caller), Err(RateLimitError::Exceeded));
    }
    limiter.limit(h + 5, &caller).unwrap();
}

#[test]
fn rejected_call_leaves_state_unchanged() {
    let mut limiter = RateLimiter::new();
    limiter.init(Rate::PerBlock(1)).unwrap();
    let caller = "caller".to_string();
    limiter.limit(7, &caller).unwrap();

    let before = limiter.caller_state(&caller);
    assert_eq!(limiter.limit(7, &caller), Err(RateLimitError::Exceeded));
    let after = limiter.caller_state(&caller);
    assert_eq!(before, after);
    assert_eq!(
        after,
        Some(CallerRateState {
            last_height: 7,
            count_at_last_height: 1,
        })
    );
}

#[test]
fn first_call_always_succeeds() {
    let mut per_block = RateLimiter::new();
    per_block.init(Rate::PerBlock(1)).unwrap();
    per_block.limit(0, &"caller".to_string()).unwrap();

    let mut blocks = RateLimiter::new();
    blocks.init(Rate::Blocks(1000)).unwrap();
    blocks.limit(0, &"caller".to_string()).unwrap();
}

#[test]
fn accepted_calls_record_height_and_count() {
    let mut limiter = RateLimiter::new();
    limiter.init(Rate::PerBlock(5)).unwrap();
    let caller = "caller".to_string();
    assert_eq!(limiter.caller_state(&caller), None);

    limiter.limit(42, &caller).unwrap();
    limiter.limit(42, &caller).unwrap();
    assert_eq!(
        limiter.caller_state(&caller),
        Some(CallerRateState {
            last_height: 42,
            count_at_last_height: 2,
        })
    );

    limiter.limit(43, &caller).unwrap();
    assert_eq!(
        limiter.caller_state(&caller),
        Some(CallerRateState {
            last_height: 43,
            count_at_last_height: 1,
        })
    );
}

#[test]
fn callers_are_limited_independently() {
    let mut limiter = RateLimiter::new();
    limiter.init(Rate::PerBlock(1)).unwrap();
    let first = "first".to_string();
    let second = "second".to_string();

    limiter.limit(5, &first).unwrap();
    assert_eq!(limiter.limit(5, &first), Err(RateLimitError::Exceeded));
    limiter.limit(5, &second).unwrap();
    assert_eq!(
        limiter.caller_state(&first),
        Some(CallerRateState {
            last_height: 5,
            count_at_last_height: 1,
        })
    );
}

#[test]
fn init_refuses_second_policy() {
    let mut limiter = RateLimiter::new();
    limiter.init(Rate::PerBlock(2)).unwrap();
    assert_eq!(
        limiter.init(Rate::Blocks(2)),
        Err(RateLimitError::AlreadyInitialized)
    );
    // The first policy is still in force.
    assert_eq!(limiter.query_limit(), Ok(Rate::PerBlock(2)));
}

#[test]
fn init_refuses_zero_rate() {
    let mut limiter = RateLimiter::new();
    assert_eq!(
        limiter.init(Rate::PerBlock(0)),
        Err(RateLimitError::ZeroRate)
    );
    assert_eq!(limiter.init(Rate::Blocks(0)), Err(RateLimitError::ZeroRate));
    assert_eq!(limiter.query_limit(), Err(RateLimitError::Uninitialized));
}

#[test]
fn uninitialized_limiter_refuses_calls() {
    let mut limiter = RateLimiter::new();
    assert_eq!(
        limiter.limit(1, &"caller".to_string()),
        Err(RateLimitError::Uninitialized)
    );
    assert_eq!(limiter.query_limit(), Err(RateLimitError::Uninitialized));
}

#[test]
fn limit_check_computes_next_record() {
    // Within the same block the count advances by one.
    assert_eq!(
        limit_check(
            Rate::PerBlock(2),
            Some(CallerRateState {
                last_height: 9,
                count_at_last_height: 1,
            }),
            9,
        ),
        Ok(CallerRateState {
            last_height: 9,
            count_at_last_height: 2,
        })
    );
    // A full window rejects.
    assert_eq!(
        limit_check(
            Rate::PerBlock(2),
            Some(CallerRateState {
                last_height: 9,
                count_at_last_height: 2,
            }),
            9,
        ),
        Err(RateLimitError::Exceeded)
    );
    // A gap of exactly `n` blocks is accepted again.
    assert_eq!(
        limit_check(
            Rate::Blocks(3),
            Some(CallerRateState {
                last_height: 10,
                count_at_last_height: 1,
            }),
            13,
        ),
        Ok(CallerRateState {
            last_height: 13,
            count_at_last_height: 1,
        })
    );
}
