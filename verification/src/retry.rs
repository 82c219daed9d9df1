//! How long to wait before a failed process is started again.

use vstd::prelude::*;

use crate::config::{BackoffStrategy, RetryConfig};

verus! {

/// The longest delay, in milliseconds: what `std::time::Duration` can hold.
pub const LONGEST_DELAY_MS: u128 = 18446744073709551615999;

/// Two to the power of `n`.
pub open spec fn power_of_two(n: nat) -> nat
    decreases n,
{
    if n == 0 {
        1
    } else {
        2 * power_of_two((n - 1) as nat)
    }
}

/// What the base delay is multiplied by before attempt `attempt`, counting
/// from 1. Doubling stops at the thirty-second attempt.
pub open spec fn delay_factor(strategy: BackoffStrategy, attempt: nat) -> nat {
    match strategy {
        BackoffStrategy::Fixed => 1,
        BackoffStrategy::Linear => attempt,
        BackoffStrategy::Exponential => power_of_two(
            if attempt == 0 {
                0
            } else if attempt > 32 {
                31
            } else {
                (attempt - 1) as nat
            },
        ),
    }
}

pub open spec fn at_most(value: int, limit: int) -> int {
    if value <= limit {
        value
    } else {
        limit
    }
}

/// The delay before attempt `attempt`, in milliseconds.
pub open spec fn delay_before(cfg: RetryConfig, attempt: nat) -> int {
    let grown = at_most(
        cfg.delay_ms * delay_factor(cfg.strategy, attempt),
        LONGEST_DELAY_MS as int,
    );
    match cfg.max_delay_ms {
        Some(cap) => at_most(grown, cap as int),
        None => grown,
    }
}

proof fn lemma_power_grows(a: nat, b: nat)
    requires
        a <= b,
    ensures
        1 <= power_of_two(a) <= power_of_two(b),
    decreases b,
{
    if a < b {
        lemma_power_grows(a, (b - 1) as nat);
    } else if b > 0 {
        lemma_power_grows((b - 1) as nat, (b - 1) as nat);
    }
}

fn two_to(n: u32) -> (power: u32)
    requires
        n <= 31,
    ensures
        power == power_of_two(n as nat),
{
    let mut power: u32 = 1;
    let mut i: u32 = 0;
    proof {
        lemma_power_grows(31, 31);
        assert(power_of_two(31) == 2147483648) by {
            reveal_with_fuel(power_of_two, 32);
        }
    }
    while i < n
        invariant
            i <= n <= 31,
            power == power_of_two(i as nat),
            power_of_two(31) == 2147483648,
        decreases n - i,
    {
        proof {
            lemma_power_grows((i + 1) as nat, 31);
        }
        power = power * 2;
        i = i + 1;
    }
    power
}

/// The delay before retry attempt `attempt`, in milliseconds, counting from 1.
/// Delays that no clock can measure become the longest that one can.
pub fn backoff_delay(cfg: &RetryConfig, attempt: u32) -> (ms: u128)
    ensures
        ms == delay_before(*cfg, attempt as nat),
{
    let factor: u32 = match cfg.strategy {
        BackoffStrategy::Fixed => 1,
        BackoffStrategy::Linear => attempt,
        BackoffStrategy::Exponential => {
            let shift: u32 = if attempt == 0 {
                0
            } else if attempt > 32 {
                31
            } else {
                attempt - 1
            };
            two_to(shift)
        },
    };
    let base: u64 = cfg.delay_ms;
    assert(base as u128 * factor as u128 <= 0xffff_ffff_ffff_ffff * 0xffff_ffff)
        by (nonlinear_arith)
        requires
            base <= 0xffff_ffff_ffff_ffff,
            factor <= 0xffff_ffff,
    ;
    let mut ms: u128 = base as u128 * factor as u128;
    if ms > LONGEST_DELAY_MS {
        ms = LONGEST_DELAY_MS;
    }
    match cfg.max_delay_ms {
        Some(cap) => {
            if ms > cap as u128 {
                ms = cap as u128;
            }
        },
        None => {},
    }
    ms
}

/// A fixed delay is the base delay, whatever the attempt.
pub proof fn law_fixed_delay_is_constant(cfg: RetryConfig, a: nat, b: nat)
    requires
        cfg.strategy is Fixed,
    ensures
        delay_before(cfg, a) == delay_before(cfg, b),
{
}

/// No delay is above its cap.
pub proof fn law_delay_respects_cap(cfg: RetryConfig, attempt: nat)
    ensures
        cfg.max_delay_ms matches Some(cap) ==> delay_before(cfg, attempt) <= cap,
        0 <= delay_before(cfg, attempt) <= LONGEST_DELAY_MS,
{
    lemma_power_grows(0, if attempt == 0 {
        0
    } else if attempt > 32 {
        31
    } else {
        (attempt - 1) as nat
    });
    let f = delay_factor(cfg.strategy, attempt);
    assert(0 <= cfg.delay_ms * f) by (nonlinear_arith)
        requires
            0 <= cfg.delay_ms,
            0 <= f,
    ;
}

/// Delays never shrink from one attempt to the next.
pub proof fn law_delay_grows(cfg: RetryConfig, a: nat, b: nat)
    requires
        a <= b,
    ensures
        delay_before(cfg, a) <= delay_before(cfg, b),
{
    let shift = |n: nat|
        if n == 0 {
            0nat
        } else if n > 32 {
            31nat
        } else {
            (n - 1) as nat
        };
    lemma_power_grows(shift(a), shift(b));
    let fa = delay_factor(cfg.strategy, a);
    let fb = delay_factor(cfg.strategy, b);
    assert(cfg.delay_ms * fa <= cfg.delay_ms * fb) by (nonlinear_arith)
        requires
            0 <= cfg.delay_ms,
            fa <= fb,
    ;
}

/// While nothing caps it, an exponential delay doubles from one attempt to the
/// next.
pub proof fn law_exponential_doubles(cfg: RetryConfig, attempt: nat)
    requires
        cfg.strategy is Exponential,
        cfg.max_delay_ms is None,
        1 <= attempt < 32,
        2 * delay_before(cfg, attempt) <= LONGEST_DELAY_MS,
    ensures
        delay_before(cfg, attempt + 1) == 2 * delay_before(cfg, attempt),
{
    let p = power_of_two((attempt - 1) as nat);
    assert(power_of_two(attempt) == 2 * p);
    assert(cfg.delay_ms * (2 * p) == 2 * (cfg.delay_ms * p)) by (nonlinear_arith);
}

proof fn lemma_power_is_pow2(n: nat)
    ensures
        power_of_two(n) == vstd::arithmetic::power2::pow2(n),
    decreases n,
{
    if n == 0 {
        vstd::arithmetic::power2::lemma2_to64();
    } else {
        lemma_power_is_pow2((n - 1) as nat);
        vstd::arithmetic::power2::lemma_pow2_unfold(n);
    }
}

/// What a policy comes to, whether it has a cap or not: before attempt `n` the
/// base delay is taken once, `n` times, or two to the power of `n - 1` times,
/// where the doubling stops at the thirty-second attempt. Neither the cap nor
/// what a clock can measure is exceeded, and nothing else shortens a delay.
pub proof fn law_delay_follows_the_strategy(cfg: RetryConfig, attempt: nat)
    requires
        attempt >= 1,
    ensures
        ({
            let ms = delay_before(cfg, attempt);
            let times = match cfg.strategy {
                BackoffStrategy::Fixed => 1int,
                BackoffStrategy::Linear => attempt as int,
                BackoffStrategy::Exponential => vstd::arithmetic::power2::pow2(
                    (vstd::math::min(attempt as int, 32) - 1) as nat,
                ) as int,
            };
            let limit = match cfg.max_delay_ms {
                Some(cap) => vstd::math::min(cap as int, 18446744073709551615999),
                None => 18446744073709551615999,
            };
            ms == vstd::math::min(cfg.delay_ms * times, limit)
        }),
{
    if attempt > 32 {
        lemma_power_is_pow2(31);
    } else {
        lemma_power_is_pow2((attempt - 1) as nat);
    }
}

/// A cap does nothing but bound the delay: with it there comes the smaller one
/// of the cap and the delay that the same policy has without it.
pub proof fn law_cap_only_bounds(cfg: RetryConfig, cap: u64, attempt: nat)
    ensures
        delay_before(RetryConfig { max_delay_ms: Some(cap), ..cfg }, attempt) == vstd::math::min(
            cap as int,
            delay_before(RetryConfig { max_delay_ms: None, ..cfg }, attempt),
        ),
{
}

/// A linear delay grows by the base delay from one attempt to the next, up to
/// its cap.
pub proof fn law_linear_adds_the_base(cfg: RetryConfig, attempt: nat)
    requires
        cfg.strategy is Linear,
        delay_before(cfg, attempt) + cfg.delay_ms <= LONGEST_DELAY_MS,
        cfg.max_delay_ms matches Some(cap) ==> delay_before(cfg, attempt) + cfg.delay_ms <= cap,
    ensures
        delay_before(cfg, attempt + 1) == delay_before(cfg, attempt) + cfg.delay_ms,
{
    assert(cfg.delay_ms * (attempt + 1) == cfg.delay_ms * attempt + cfg.delay_ms)
        by (nonlinear_arith);
}

/// An exponential delay doubles from one attempt to the next as long as twice
/// the delay is within the cap, and then stays at the cap.
pub proof fn law_exponential_doubles_up_to_the_cap(cfg: RetryConfig, cap: u64, attempt: nat)
    requires
        cfg.strategy is Exponential,
        cfg.max_delay_ms == Some(cap),
        1 <= attempt < 32,
    ensures
        delay_before(cfg, attempt + 1) == vstd::math::min(
            2 * delay_before(cfg, attempt),
            cap as int,
        ),
{
    let p = power_of_two((attempt - 1) as nat);
    assert(power_of_two(attempt) == 2 * p);
    assert(cfg.delay_ms * (2 * p) == 2 * (cfg.delay_ms * p)) by (nonlinear_arith);
    assert(0 <= cfg.delay_ms * p) by (nonlinear_arith)
        requires
            0 <= cfg.delay_ms,
            0 <= p,
    ;
}

/// The first attempt waits for the base delay, whatever the strategy, up to the
/// cap.
pub proof fn law_first_delay_is_the_base(cfg: RetryConfig)
    ensures
        delay_before(cfg, 1) == match cfg.max_delay_ms {
            Some(cap) => vstd::math::min(cap as int, cfg.delay_ms as int),
            None => cfg.delay_ms as int,
        },
{
    assert(power_of_two(0) == 1);
    assert(cfg.delay_ms * 1 == cfg.delay_ms) by (nonlinear_arith);
}

/// The delay that is waited before an attempt is what the strategy makes of the
/// base delay, and no longer than the cap, where there is one.
pub proof fn law_waits_follow_the_policy(cfg: &RetryConfig, attempt: u32, ms: u128)
    requires
        attempt >= 1,
        call_ensures(backoff_delay, (cfg, attempt), ms),
    ensures
        ({
            let raw = cfg.delay_ms * match cfg.strategy {
                BackoffStrategy::Fixed => 1int,
                BackoffStrategy::Linear => attempt as int,
                BackoffStrategy::Exponential => vstd::arithmetic::power2::pow2(
                    (vstd::math::min(attempt as int, 32) - 1) as nat,
                ) as int,
            };
            &&& cfg.max_delay_ms is None ==> ms == vstd::math::min(raw, 18446744073709551615999)
            &&& cfg.max_delay_ms matches Some(cap) ==> ms == vstd::math::min(raw, cap as int)
        }),
{
    law_delay_follows_the_strategy(*cfg, attempt as nat);
}

} // verus!
