//! Rate limiting with four algorithms, alone or combined.
//!
//! - [`TokenBucket`]: allows bursts, refills at a fixed rate.
//! - [`LeakyBucket`]: a queue that drains at a fixed rate.
//! - [`SlidingWindow`]: a rolling window of request times.
//! - [`FixedWindow`]: a counter for each stretch of time.
//!
//! All four implement [`RateLimiter`]. A [`RateLimiterSuite`] asks several of
//! them and reports the most restrictive answer. The [`chooser`] lets a
//! contextual bandit pick the limiter that decides about a request.
//!
//! What a limiter answers is stated over its [`types::Behaviour`]: a
//! mathematical function of the checks that it has seen. The laws that hold
//! of the answers are public proof functions beside each limiter, such as
//! [`token_bucket::token_bucket_bounds_admission`].
//!
//! Every limiter can be asked at the moment of the call, as
//! [`RateLimiter::check`] does, or at an instant that the caller names, as
//! [`RateLimiter::check_n_at`] does. Instants count nanoseconds.
pub mod binary64;
pub mod chooser;
pub mod clock;
pub mod duration;
pub mod fixed_window;
pub mod keyed;
pub mod keyed_map;
pub mod leaky_bucket;
pub mod rate;
pub mod sliding_window;
pub mod suite;
pub mod token_bucket;
pub mod types;

pub use binary64::Binary64;
pub use duration::Duration;
pub use fixed_window::FixedWindow;
pub use leaky_bucket::LeakyBucket;
pub use sliding_window::SlidingWindow;
pub use suite::{AnyLimiter, RateLimiterSuite, RateLimiterSuiteBuilder};
pub use token_bucket::TokenBucket;
pub use types::{Algorithm, BucketConfig, ConfigError, RateLimitResult, RateLimiter, WindowConfig};
