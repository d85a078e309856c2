//! Exact arithmetic with a rate of tokens per second.
//!
//! A positive rate is the quotient `rate_numer / rate_denom` in tokens per
//! nanosecond. Quantities of tokens are counted in shares: one token is
//! `rate_denom` shares, and every nanosecond brings `rate_numer` of them.
use crate::binary64::{
    lemma_units_sign, Binary64, FRACTION_SPAN, SIGN_WEIGHT, UNIT_EXPONENT,
};
use crate::duration::{Duration, MAX_DURATION_NANOS, NANOS_PER_SEC};
use vstd::arithmetic::div_mod::{
    lemma_div_is_ordered, lemma_fundamental_div_mod, lemma_fundamental_div_mod_converse,
};
use vstd::arithmetic::power2::{
    lemma2_to64, lemma2_to64_rest, lemma_pow2_adds, lemma_pow2_pos, lemma_pow2_strictly_increases,
    lemma_pow2_unfold, pow2,
};
use vstd::prelude::*;

verus! {

/// The power of two by which the mantissa of `rate` is scaled up.
pub open spec fn rate_up(rate: Binary64) -> nat {
    if rate.scale() >= UNIT_EXPONENT {
        (rate.scale() - UNIT_EXPONENT) as nat
    } else {
        0
    }
}

/// The power of two by which the mantissa of `rate` is scaled down.
pub open spec fn rate_down(rate: Binary64) -> nat {
    if rate.scale() >= UNIT_EXPONENT {
        0
    } else {
        (UNIT_EXPONENT - rate.scale()) as nat
    }
}

/// Shares of a token that one nanosecond brings.
pub open spec fn rate_numer(rate: Binary64) -> nat {
    rate.mantissa() * pow2(rate_up(rate))
}

/// Shares that make up one token.
pub open spec fn rate_denom(rate: Binary64) -> nat {
    NANOS_PER_SEC as nat * pow2(rate_down(rate))
}

/// The integer nearest to `num / den`, and the even one of two that are
/// equally near.
pub open spec fn nearest(num: nat, den: nat) -> nat {
    let quotient = num / den;
    let twice = 2 * (num % den);
    if twice > den || (twice == den && quotient % 2 == 1) {
        quotient + 1
    } else {
        quotient
    }
}

/// The smaller of two numbers.
pub open spec fn min_nat(a: nat, b: nat) -> nat {
    if a <= b {
        a
    } else {
        b
    }
}

/// Nanoseconds that bring `shares` shares at `rate`, to the nearest
/// nanosecond and up to the longest [`Duration`].
pub open spec fn wait_nanos(rate: Binary64, shares: nat) -> nat {
    min_nat(nearest(shares, rate_numer(rate)), MAX_DURATION_NANOS as nat)
}

/// Shares held after `elapsed` nanoseconds by one who held `shares` and
/// can hold no more than `capacity` tokens.
pub open spec fn accrued(rate: Binary64, shares: nat, elapsed: nat, capacity: nat) -> nat {
    min_nat(shares + elapsed * rate_numer(rate), capacity * rate_denom(rate))
}

/// Whole tokens that `elapsed` nanoseconds bring at `rate`, up to
/// `u64::MAX`.
pub open spec fn tokens_in(rate: Binary64, elapsed: nat) -> nat {
    accrued(rate, 0, elapsed, u64::MAX as nat) / rate_denom(rate)
}

/// `rate_numer / rate_denom` tokens per nanosecond is the value of `rate`
/// in tokens per second.
pub proof fn rate_is_exact(rate: Binary64)
    requires
        rate.positive(),
    ensures
        rate_numer(rate) > 0,
        rate_denom(rate) > 0,
        rate_numer(rate) * NANOS_PER_SEC * pow2(UNIT_EXPONENT as nat) == rate.units() * rate_denom(
            rate,
        ),
        rate_numer(rate) * 1_000_000_000 * pow2(1074) == rate.units() * rate_denom(rate),
{
    lemma_units_sign(rate);
    let m = rate.mantissa();
    let s = rate.scale();
    let u = rate_up(rate);
    let d = rate_down(rate);
    lemma_pow2_pos(s);
    lemma_pow2_pos(u);
    lemma_pow2_pos(d);
    lemma_pow2_adds(u, UNIT_EXPONENT as nat);
    lemma_pow2_adds(s, d);
    let (pu, ps, pd, pe) = (pow2(u), pow2(s), pow2(d), pow2(UNIT_EXPONENT as nat));
    assert(u + UNIT_EXPONENT == s + d);
    assert(pu * pe == ps * pd);
    assert(m > 0) by {
        if m == 0 {
            assert(0 * ps == 0);
        }
    }
    assert(m * pu > 0) by (nonlinear_arith)
        requires
            m > 0,
            pu > 0,
    ;
    assert((m * pu) * 1_000_000_000 * pe == (m * ps) * (1_000_000_000 * pd)) by (nonlinear_arith)
        requires
            pu * pe == ps * pd,
    ;
}

/// Facts about the quotient that executable code relies on.
proof fn lemma_rate_parts(rate: Binary64)
    requires
        rate.positive(),
    ensures
        0 < rate.mantissa() < 2 * FRACTION_SPAN,
        rate_down(rate) == 0 ==> rate.mantissa() >= FRACTION_SPAN && rate_denom(rate)
            == NANOS_PER_SEC,
        rate_up(rate) == 0 ==> rate_numer(rate) == rate.mantissa(),
        rate_up(rate) == 0 || rate_down(rate) == 0,
        rate_up(rate) <= 971,
        rate_down(rate) <= 1074,
        rate_denom(rate) >= NANOS_PER_SEC,
        rate_numer(rate) > 0,
{
    lemma_units_sign(rate);
    rate_is_exact(rate);
    lemma2_to64();
    if rate.mantissa() == 0 {
        assert(0 * pow2(rate.scale()) == 0);
    }
    lemma_pow2_pos(rate_down(rate));
    let d = pow2(rate_down(rate));
    assert(rate.mantissa() * 1 == rate.mantissa());
    assert(1_000_000_000 * d >= 1_000_000_000) by (nonlinear_arith)
        requires
            d >= 1,
    ;
}

/// Two to the power of `exponent`.
fn power_of_two(exponent: u32) -> (p: u128)
    requires
        exponent < 128,
    ensures
        p == pow2(exponent as nat),
{
    let mut p: u128 = 1;
    let mut i: u32 = 0;
    proof {
        lemma2_to64();
    }
    while i < exponent
        invariant
            i <= exponent < 128,
            p == pow2(i as nat),
        decreases exponent - i,
    {
        proof {
            lemma_pow2_unfold((i + 1) as nat);
            lemma_u128_pow2((i + 1) as nat);
        }
        p = p * 2;
        i = i + 1;
    }
    p
}

/// A power of two below 2^128 fits in a `u128`.
proof fn lemma_u128_pow2(e: nat)
    requires
        e < 128,
    ensures
        pow2(e) <= u128::MAX,
        pow2(127) == 0x8000_0000_0000_0000_0000_0000_0000_0000,
{
    lemma2_to64_rest();
    lemma_pow2_adds(64, 63);
    assert(pow2(127) == 0x8000_0000_0000_0000_0000_0000_0000_0000);
    if e < 127 {
        lemma_pow2_strictly_increases(e, 127);
    }
}

/// The mantissa of a positive `rate` and the two powers of two by which it
/// is scaled up and down.
fn decode(rate: &Binary64) -> (parts: (u64, u32, u32))
    requires
        rate.positive(),
    ensures
        parts.0 == rate.mantissa(),
        parts.1 == rate_up(*rate),
        parts.2 == rate_down(*rate),
{
    let exponent: u64 = (rate.bits % SIGN_WEIGHT) / FRACTION_SPAN;
    let fraction: u64 = rate.bits % FRACTION_SPAN;
    if exponent == 0 {
        (fraction, 0, 1074)
    } else if exponent >= 1075 {
        (FRACTION_SPAN + fraction, (exponent - 1075) as u32, 0)
    } else {
        (FRACTION_SPAN + fraction, 0, (1075 - exponent) as u32)
    }
}

/// Whether `tokens` whole tokens and `credit` shares of the next one is how
/// `shares` shares are written.
pub open spec fn written_as(rate: Binary64, tokens: nat, credit: nat, shares: nat) -> bool {
    &&& shares == tokens * rate_denom(rate) + credit
    &&& credit < rate_denom(rate)
}

/// From whole tokens and shares of the next, and what came in, to the
/// number of tokens and shares, below and at the capacity.
proof fn lemma_accrued(
    rate: Binary64,
    tokens: nat,
    credit: nat,
    elapsed: nat,
    capacity: nat,
    total: nat,
)
    requires
        rate.positive(),
        tokens <= capacity,
        total == credit + elapsed * rate_numer(rate),
    ensures
        ({
            let shares = tokens * rate_denom(rate) + credit;
            let whole = (tokens + total / rate_denom(rate)) as nat;
            &&& whole >= capacity ==> accrued(rate, shares, elapsed, capacity) == capacity
                * rate_denom(rate)
            &&& whole < capacity ==> accrued(rate, shares, elapsed, capacity) == whole * rate_denom(
                rate,
            ) + total % rate_denom(rate)
        }),
{
    lemma_rate_parts(rate);
    let d = rate_denom(rate) as int;
    let q = total as int / d;
    let r = total as int % d;
    lemma_fundamental_div_mod(total as int, d);
    assert(0 <= r < d);
    assert((tokens + q) * d == tokens * d + d * q) by (nonlinear_arith);
    if tokens + q >= capacity {
        assert((tokens + q) * d >= capacity * d) by (nonlinear_arith)
            requires
                tokens + q >= capacity,
                d > 0,
        ;
    } else {
        assert((tokens + q + 1) * d <= capacity * d) by (nonlinear_arith)
            requires
                tokens + q + 1 <= capacity,
                d > 0,
        ;
        assert((tokens + q + 1) * d == (tokens + q) * d + d) by (nonlinear_arith);
    }
}

/// Adds to `tokens` tokens and `credit` shares what `elapsed` nanoseconds
/// bring at `rate`, up to `capacity` tokens.
pub fn accrue(rate: &Binary64, tokens: u64, credit: u128, elapsed: u64, capacity: u64) -> (r: (
    u64,
    u128,
))
    requires
        rate.positive(),
        tokens <= capacity,
        tokens == capacity ==> credit == 0,
        credit < rate_denom(*rate),
        credit + elapsed * rate_numer(*rate) <= u64::MAX * rate_numer(*rate),
    ensures
        written_as(
            *rate,
            r.0 as nat,
            r.1 as nat,
            accrued(
                *rate,
                tokens as nat * rate_denom(*rate) + credit as nat,
                elapsed as nat,
                capacity as nat,
            ),
        ),
        r.1 <= credit + elapsed * rate_numer(*rate),
        r.0 <= capacity,
        r.0 == capacity ==> r.1 == 0,
{
    let (mantissa, up, down) = decode(rate);
    let ghost numer = rate_numer(*rate);
    let ghost denom = rate_denom(*rate);
    let ghost total_shares: nat = (credit + elapsed * numer) as nat;
    proof {
        lemma_rate_parts(*rate);
        lemma_accrued(
            *rate,
            tokens as nat,
            credit as nat,
            elapsed as nat,
            capacity as nat,
            total_shares,
        );
        assert(0 <= elapsed * numer) by (nonlinear_arith)
            requires
                elapsed >= 0,
                numer >= 0,
        ;
    }
    if down > 0 {
        proof {
            assert(mantissa * elapsed < 0x20_0000_0000_0000 * 0x1_0000_0000_0000_0000)
                by (nonlinear_arith)
                requires
                    mantissa < 0x20_0000_0000_0000,
                    elapsed < 0x1_0000_0000_0000_0000,
            ;
            assert(u64::MAX * mantissa < 0x20_0000_0000_0000 * 0x1_0000_0000_0000_0000)
                by (nonlinear_arith)
                requires
                    mantissa < 0x20_0000_0000_0000,
            ;
            assert(mantissa * elapsed == elapsed * numer) by (nonlinear_arith)
                requires
                    mantissa == numer,
            ;
        }
        let total: u128 = credit + mantissa as u128 * elapsed as u128;
        assert(total == total_shares);
        if down >= 98 {
            proof {
                lemma_denom_beyond(down as nat);
                vstd::arithmetic::div_mod::lemma_basic_div(total as int, denom as int);
                vstd::arithmetic::div_mod::lemma_small_mod(total as nat, denom);
            }
            if tokens >= capacity {
                (capacity, 0)
            } else {
                (tokens, total)
            }
        } else {
            let scale = power_of_two(down);
            proof {
                lemma_u128_denom(down as nat);
            }
            let one: u128 = 1_000_000_000 * scale;
            assert(one == denom);
            let whole: u128 = total / one;
            proof {
                lemma_fundamental_div_mod(total as int, one as int);
            }
            if whole >= (capacity - tokens) as u128 {
                (capacity, 0)
            } else {
                (tokens + whole as u64, total % one)
            }
        }
    } else if elapsed == 0 {
        proof {
            vstd::arithmetic::div_mod::lemma_basic_div(credit as int, denom as int);
            vstd::arithmetic::div_mod::lemma_small_mod(credit as nat, denom);
            assert(0 * numer == 0);
        }
        (tokens, credit)
    } else if up > 42 {
        proof {
            lemma2_to64_rest();
            if up > 43 {
                lemma_pow2_strictly_increases(43, up as nat);
            }
            let p = pow2(up as nat);
            assert(elapsed * (mantissa * p) >= 0x10_0000_0000_0000 * 0x800_0000_0000)
                by (nonlinear_arith)
                requires
                    elapsed >= 1,
                    mantissa >= 0x10_0000_0000_0000,
                    p >= 0x800_0000_0000,
            ;
            lemma_filled(total_shares, denom, capacity as nat);
        }
        (capacity, 0)
    } else {
        let scale = power_of_two(up);
        proof {
            lemma2_to64_rest();
            if up < 42 {
                lemma_pow2_strictly_increases(up as nat, 42);
            }
            assert(mantissa * scale <= 0x20_0000_0000_0000 * 0x400_0000_0000) by (nonlinear_arith)
                requires
                    mantissa <= 0x20_0000_0000_0000,
                    scale <= 0x400_0000_0000,
            ;
        }
        let per_nano: u128 = mantissa as u128 * scale;
        assert(per_nano == numer);
        match per_nano.checked_mul(elapsed as u128) {
            Some(gained) => {
                proof {
                    assert(per_nano * elapsed == elapsed * numer) by (nonlinear_arith)
                        requires
                            per_nano == numer,
                    ;
                }
                if gained >= 0x8000_0000_0000_0000_0000_0000_0000_0000 {
                    proof {
                        lemma_filled(total_shares, denom, capacity as nat);
                    }
                    (capacity, 0)
                } else {
                    let total: u128 = credit + gained;
                    let whole: u128 = total / 1_000_000_000;
                    if whole >= (capacity - tokens) as u128 {
                        (capacity, 0)
                    } else {
                        (tokens + whole as u64, total % 1_000_000_000)
                    }
                }
            },
            None => {
                proof {
                    assert(per_nano * elapsed == elapsed * numer) by (nonlinear_arith)
                        requires
                            per_nano == numer,
                    ;
                    lemma_filled(total_shares, denom, capacity as nat);
                }
                (capacity, 0)
            },
        }
    }
}

/// As many shares as `capacity` tokens have, or more, are `capacity` whole
/// tokens or more.
proof fn lemma_filled(total: nat, denom: nat, capacity: nat)
    requires
        denom == NANOS_PER_SEC,
        capacity <= u64::MAX,
        total >= u64::MAX * NANOS_PER_SEC,
    ensures
        total / denom >= capacity,
{
}

/// With a divisor of 2^98 or more a token is more than 2^127 shares.
proof fn lemma_denom_beyond(down: nat)
    requires
        98 <= down,
    ensures
        NANOS_PER_SEC * pow2(down) > 0x8000_0000_0000_0000_0000_0000_0000_0000,
{
    lemma2_to64_rest();
    lemma_pow2_adds(64, 34);
    if down > 98 {
        lemma_pow2_strictly_increases(98, down);
    }
}

/// With a divisor below 2^98 the shares of a token fit in a `u128`.
proof fn lemma_u128_denom(down: nat)
    requires
        down < 98,
    ensures
        NANOS_PER_SEC * pow2(down) <= 0x8000_0000_0000_0000_0000_0000_0000_0000,
{
    lemma2_to64();
    lemma2_to64_rest();
    lemma_pow2_adds(64, 33);
    if down < 97 {
        lemma_pow2_strictly_increases(down, 97);
    }
}

/// The number of whole tokens in shares that are written as tokens and
/// credit.
pub proof fn lemma_written_as(rate: Binary64, tokens: nat, credit: nat, shares: nat)
    requires
        rate.positive(),
        written_as(rate, tokens, credit, shares),
    ensures
        shares / rate_denom(rate) == tokens,
{
    lemma_rate_parts(rate);
    lemma_fundamental_div_mod_converse(
        shares as int,
        rate_denom(rate) as int,
        tokens as int,
        credit as int,
    );
}

/// Whole tokens that `elapsed` nanoseconds bring at `rate`.
pub fn tokens_gained(rate: &Binary64, elapsed: u64) -> (n: u64)
    requires
        rate.positive(),
    ensures
        n == tokens_in(*rate, elapsed as nat),
{
    proof {
        lemma_rate_parts(*rate);
        let numer = rate_numer(*rate);
        assert(elapsed * numer <= u64::MAX * numer) by (nonlinear_arith)
            requires
                elapsed <= u64::MAX,
        ;
        assert(0 * rate_denom(*rate) == 0);
    }
    let (tokens, credit) = accrue(rate, 0, 0, elapsed, u64::MAX);
    proof {
        lemma_written_as(
            *rate,
            tokens as nat,
            credit as nat,
            accrued(*rate, 0, elapsed as nat, u64::MAX as nat),
        );
    }
    tokens
}

/// `q` and `r` are quotient and remainder of `shares` by `den`.
proof fn lemma_divided(shares: nat, den: nat, q: nat, r: nat)
    requires
        shares == q * den + r,
        r < den,
    ensures
        shares / den == q,
        shares % den == r,
{
    lemma_fundamental_div_mod_converse(shares as int, den as int, q as int, r as int);
}

/// Rounds the quotient `q` with remainder `r` of a division by `den`.
fn round(q: u128, r: u128, den: u128, Ghost(shares): Ghost<nat>) -> (d: Duration)
    requires
        q < 0x400_0000_0000_0000_0000_0000_0000_0000,
        r < den <= 0x8000_0000_0000_0000_0000_0000_0000_0000,
        shares == q * den + r,
    ensures
        d.nanos == min_nat(nearest(shares, den as nat), MAX_DURATION_NANOS as nat),
{
    proof {
        lemma_divided(shares, den as nat, q as nat, r as nat);
    }
    let nanos: u128 = if 2 * r > den || (2 * r == den && q % 2 == 1) {
        q + 1
    } else {
        q
    };
    if nanos <= MAX_DURATION_NANOS {
        Duration { nanos }
    } else {
        Duration { nanos: MAX_DURATION_NANOS }
    }
}

/// Time until `tokens` tokens have come in at `rate` when `credit` shares of
/// them are already there.
pub fn wait(rate: &Binary64, tokens: u64, credit: u128) -> (d: Duration)
    requires
        rate.positive(),
        tokens > 0,
        credit < rate_denom(*rate),
        credit <= u64::MAX * rate_numer(*rate),
    ensures
        d.nanos == wait_nanos(*rate, (tokens * rate_denom(*rate) - credit) as nat),
{
    let (mantissa, up, down) = decode(rate);
    let ghost numer = rate_numer(*rate);
    let ghost denom = rate_denom(*rate);
    let ghost shares: nat = (tokens * denom - credit) as nat;
    proof {
        lemma_rate_parts(*rate);
        assert(tokens * denom >= denom) by (nonlinear_arith)
            requires
                tokens >= 1,
                denom >= 0,
        ;
    }
    if down == 0 {
        let needed: u128 = tokens as u128 * 1_000_000_000 - credit;
        assert(needed == shares);
        if up > 74 {
            proof {
                lemma2_to64();
                lemma2_to64_rest();
                lemma_pow2_adds(64, 11);
                if up > 75 {
                    lemma_pow2_strictly_increases(75, up as nat);
                }
                let p = pow2(up as nat);
                assert(mantissa * p >= 0x10_0000_0000_0000 * 0x800_0000_0000_0000_0000)
                    by (nonlinear_arith)
                    requires
                        mantissa >= 0x10_0000_0000_0000,
                        p >= 0x800_0000_0000_0000_0000,
                ;
                assert(0 * numer == 0);
                lemma_divided(shares, numer, 0, shares);
            }
            return Duration { nanos: 0 };
        }
        let scale = power_of_two(up);
        proof {
            lemma2_to64_rest();
            lemma_pow2_adds(64, 10);
            lemma2_to64();
            if up < 74 {
                lemma_pow2_strictly_increases(up as nat, 74);
            }
            assert(mantissa * scale <= 0x20_0000_0000_0000 * 0x400_0000_0000_0000_0000)
                by (nonlinear_arith)
                requires
                    mantissa <= 0x20_0000_0000_0000,
                    scale <= 0x400_0000_0000_0000_0000,
            ;
        }
        let per_nano: u128 = mantissa as u128 * scale;
        let q: u128 = needed / per_nano;
        let r: u128 = needed % per_nano;
        proof {
            lemma_fundamental_div_mod(needed as int, per_nano as int);
            lemma_quotient_below(needed as nat, per_nano as nat);
        }
        return round(q, r, per_nano, Ghost(shares));
    }
    let base: u128 = tokens as u128 * 1_000_000_000;
    let den: u128 = mantissa as u128;
    let mut q: u128 = base / den;
    let mut r: u128 = base % den;
    let mut i: u32 = 0;
    proof {
        lemma_fundamental_div_mod(base as int, den as int);
        lemma_quotient_below(base as nat, den as nat);
        lemma2_to64();
        assert(base * 1 == base);
    }
    while i < down
        invariant
            i <= down,
            r < den,
            0 < den < 0x20_0000_0000_0000,
            den == numer,
            q < 0x200_0000_0000_0000_0000_0000_0000_0000,
            base * pow2(i as nat) == q * den + r,
            base == tokens * 1_000_000_000,
            denom == 1_000_000_000 * pow2(down as nat),
            credit <= u64::MAX * numer,
            shares == tokens * denom - credit,
            numer == rate_numer(*rate),
            denom == rate_denom(*rate),
            rate.positive(),
        decreases down - i,
    {
        if q >= 0x100_0000_0000_0000_0000_0000_0000_0000 {
            proof {
                lemma_wait_is_longest(
                    *rate,
                    base as nat,
                    q as nat,
                    i as nat,
                    down as nat,
                    credit as nat,
                );
                let p = pow2(down as nat);
                assert(base * p == tokens * denom) by (nonlinear_arith)
                    requires
                        base == tokens * 1_000_000_000,
                        denom == 1_000_000_000 * p,
                ;
            }
            return Duration { nanos: MAX_DURATION_NANOS };
        }
        proof {
            lemma_pow2_unfold((i + 1) as nat);
            let p = pow2(i as nat);
            assert(base * (2 * p) == (2 * q) * den + 2 * r) by (nonlinear_arith)
                requires
                    base * p == q * den + r,
            ;
            assert((2 * q + 1) * den + (2 * r - den) == (2 * q) * den + 2 * r) by (nonlinear_arith);
        }
        q = 2 * q;
        r = 2 * r;
        if r >= den {
            q = q + 1;
            r = r - den;
        }
        i = i + 1;
    }
    proof {
        let p = pow2(down as nat);
        assert(base * p == tokens * denom) by (nonlinear_arith)
            requires
                base == tokens * 1_000_000_000,
                denom == 1_000_000_000 * p,
        ;
        lemma_fundamental_div_mod(credit as int, den as int);
    }
    let credit_q: u128 = credit / den;
    let credit_r: u128 = credit % den;
    proof {
        assert(den * credit_q == credit_q * den) by (nonlinear_arith);
        lemma_difference(
            q as int,
            r as int,
            credit_q as int,
            credit_r as int,
            den as int,
            shares as int,
        );
    }
    if r >= credit_r {
        round(q - credit_q, r - credit_r, den, Ghost(shares))
    } else {
        round(q - credit_q - 1, r + (den - credit_r), den, Ghost(shares))
    }
}

/// Subtraction of numbers given by quotient and remainder.
proof fn lemma_difference(q: int, r: int, cq: int, cr: int, den: int, shares: int)
    requires
        0 <= r < den,
        0 <= cr < den,
        shares > 0,
        shares == (q * den + r) - (cq * den + cr),
    ensures
        r >= cr ==> shares == (q - cq) * den + (r - cr) && q >= cq,
        r < cr ==> shares == (q - cq - 1) * den + (r + (den - cr)) && q >= cq + 1,
{
    assert((q - cq) * den == q * den - cq * den) by (nonlinear_arith);
    assert((q - cq - 1) * den == q * den - cq * den - den) by (nonlinear_arith);
    if r >= cr {
        if q < cq {
            assert((q - cq) * den <= -den) by (nonlinear_arith)
                requires
                    q - cq <= -1,
                    den > 0,
            ;
        }
    } else {
        if q < cq + 1 {
            assert((q - cq - 1) * den <= -den) by (nonlinear_arith)
                requires
                    q - cq - 1 <= -1,
                    den > 0,
            ;
        }
    }
}

/// A quotient is no greater than the dividend.
proof fn lemma_quotient_below(x: nat, d: nat)
    requires
        d > 0,
    ensures
        x / d <= x,
{
    vstd::arithmetic::div_mod::lemma_div_nonincreasing(x as int, d as int);
}

/// When the quotient has grown beyond 2^120 before all doublings are done,
/// the time to wait is the longest there is.
proof fn lemma_wait_is_longest(rate: Binary64, base: nat, q: nat, i: nat, down: nat, credit: nat)
    requires
        rate.positive(),
        i <= down,
        q >= 0x100_0000_0000_0000_0000_0000_0000_0000,
        base * pow2(i) >= q * rate_numer(rate),
        credit <= u64::MAX * rate_numer(rate),
    ensures
        credit <= base * pow2(down),
        wait_nanos(rate, (base * pow2(down) - credit) as nat) == MAX_DURATION_NANOS,
{
    lemma_rate_parts(rate);
    let n = rate_numer(rate);
    let p = pow2(i);
    if i < down {
        lemma_pow2_strictly_increases(i, down);
    }
    let z = pow2(down);
    assert(base * z >= base * p) by (nonlinear_arith)
        requires
            z >= p,
    ;
    assert(q * n >= 0x100_0000_0000_0000_0000_0000_0000_0000 * n) by (nonlinear_arith)
        requires
            q >= 0x100_0000_0000_0000_0000_0000_0000_0000,
    ;
    let shares = (base * z - credit) as nat;
    let bound: int = 0x80_0000_0000_0000_0000_0000_0000_0000;
    assert(base * z - credit >= bound * n);
    lemma_div_is_ordered(bound * n, shares as int, n as int);
    vstd::arithmetic::div_mod::lemma_div_by_multiple(bound, n as int);
}

/// One nanosecond more than the nearest number of nanoseconds brings at
/// least what is wanted.
pub proof fn lemma_nearest_covers(shares: nat, per_nano: nat)
    requires
        per_nano > 0,
    ensures
        (nearest(shares, per_nano) + 1) * per_nano >= shares,
{
    let q = shares as int / per_nano as int;
    let r = shares as int % per_nano as int;
    lemma_fundamental_div_mod(shares as int, per_nano as int);
    let near = nearest(shares, per_nano);
    assert((near + 1) * per_nano >= (q + 1) * per_nano) by (nonlinear_arith)
        requires
            near >= q,
            per_nano > 0,
    ;
    assert((q + 1) * per_nano == per_nano * q + per_nano) by (nonlinear_arith);
}

/// One nanosecond less than the nearest number of nanoseconds brings less than
/// what is wanted.
pub proof fn lemma_nearest_falls_short(shares: nat, per_nano: nat)
    requires
        per_nano > 0,
        nearest(shares, per_nano) > 0,
    ensures
        (nearest(shares, per_nano) - 1) * per_nano < shares,
{
    let q = shares as int / per_nano as int;
    let r = shares as int % per_nano as int;
    lemma_fundamental_div_mod(shares as int, per_nano as int);
    let near = nearest(shares, per_nano);
    assert(q * per_nano == per_nano * q) by (nonlinear_arith);
    assert((q - 1) * per_nano == per_nano * q - per_nano) by (nonlinear_arith);
    assert(near == q || near == q + 1);
}

/// The wait for some shares is the number of nanoseconds nearest to the time in
/// which they come in, the even one of two that are equally near, up to the
/// longest span that there is.
pub proof fn wait_is_the_nearest(rate: Binary64, shares: nat)
    requires
        rate.positive(),
    ensures
        ({
            let numer = rate_numer(rate);
            let w = wait_nanos(rate, shares);
            let longest = 18_446_744_073_709_551_615_999_999_999nat;
            &&& w <= longest
            &&& 2 * (w * numer) <= 2 * shares + numer
            &&& w < longest ==> 2 * shares <= 2 * (w * numer) + numer
            &&& w < longest && (2 * (w * numer) == 2 * shares + numer || 2 * shares == 2 * (w
                * numer) + numer) ==> w % 2 == 0
        }),
{
    rate_is_exact(rate);
    let numer = rate_numer(rate);
    let q = shares as int / numer as int;
    lemma_fundamental_div_mod(shares as int, numer as int);
    assert(q * numer == numer * q) by (nonlinear_arith);
    assert((q + 1) * numer == numer * q + numer) by (nonlinear_arith);
    let near = nearest(shares, numer);
    let w = wait_nanos(rate, shares);
    assert(near == q || near == q + 1);
    assert(w * numer <= near * numer) by (nonlinear_arith)
        requires
            w <= near,
            numer >= 0,
    ;
}

} // verus!
