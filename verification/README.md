# Rate limiter suite

Four rate limiters, a suite that combines them, and a chooser that lets a
contextual bandit pick the limiter for a request. The logic is written in
Verus: functions state what they return, and Verus proves it. The exception is
the reading of the clock, of which nothing can be stated but that the readings
of a limiter do not go back.

## Layout

- `src/` is the library.
  - `token_bucket`, `leaky_bucket`, `sliding_window`, `fixed_window`: the
    limiters, each with its model and its laws.
  - `keyed`, `keyed_map`: state of its own for each key.
  - `suite`: several limiters that act as one.
  - `types`: configurations, results and the trait that all limiters share.
  - `binary64`, `rate`, `duration`, `clock`: exact arithmetic with rates, and
    time.
  - `chooser`: what is observed of requests (`features`), which arm is pulled
    (`bandit`), who decides (`limiter`), and what is learnt from and when
    (`observer`).
- `tests/` runs the library.
- `app/` is ordinary Rust around it: limiters behind locks, scores and rewards
  in floating point, and the observer on a tokio task.

## How to read a contract

A limiter is a state machine. `RateLimiter::behaviour` is the function from the
calls that a limiter sees to the answers that it gives, and every call says what
it answers and which behaviour is left. `check_n_at` takes the instant of the
check; `check` and `check_n` read the clock, and state that the answer is that
of some instant. Each of the four limiters names it (`last_reading`) and states
that it does not go back.

Rates are binary64 numbers, held by their bit patterns. Buckets count with the
exact value of the rate, without rounding; only the time to wait is rounded, to
the nearest nanosecond.

```rust
use rate_limiter_suite::{
    Binary64, BucketConfig, Duration, RateLimiterSuite, WindowConfig,
};

let ten = Binary64::from_bits(10.0f64.to_bits());
let mut suite = RateLimiterSuite::builder()
    .token_bucket(BucketConfig::new(100, ten))
    .fixed_window(WindowConfig::new(1000, Duration::from_secs(3600)))
    .build();
let result = suite.check("client_abc");
```

## What is taken on trust

- `std::time::Instant`, of whose readings nothing is claimed.
- `dashmap::DashMap`, of which `new`, `insert` and `remove` are taken to act as
  the operations of a mathematical map.

## Laws

Public proof functions state what holds of all inputs. Among them:

- No limiter lets through more than its configuration allows, however the checks
  are spread: `token_bucket_bounds_bursts`, `leaky_bucket_bounds_admission`,
  `sliding_window_bounds_admission`, `fixed_window_bounds_admission`.
- The sliding window lets requests through exactly if there is room for them in
  the window that ends with them: `sliding_window_admission_is_exact`.
- A denied check changes no later answer of the token bucket
  (`token_bucket_denial_changes_no_answer`), of the sliding window
  (`sliding_window_denial_changes_no_answer`), and, for no more requests than
  the limit, of the fixed window (`fixed_window_denial_changes_no_answer`). Of
  the leaky bucket this does not hold: the drain that comes with a check can
  lose a fraction of a request's time.
- A denied check succeeds once the time that it was told has passed: in the fixed
  window as it is, in the token bucket one nanosecond later, in the sliding window
  if the requests that leave with the oldest make room, and in the leaky bucket
  one nanosecond later if nothing has drained since the oldest request came in
  (`*_retry_succeeds`, `sliding_window_retry_finds_room`). In the token bucket and
  in the two windows no shorter wait would do (`*_retry_is_least`).
- Every answer names the limit and the algorithm, what remains of the limit, and,
  on denial, how long to wait: `*_answers_are_informative`.
- Whatever calls are made, a key is answered as if only its own had been:
  `keys_are_independent`. A key that was reset is answered as one that was never
  seen: `reset_starts_afresh`.
- The answer of a suite is determined by those of its limiters:
  `suite_answer_is_determined`, `suite_allows_what_all_allow`.
- The bandit learns from every outcome once: `every_outcome_is_learnt_once`.
