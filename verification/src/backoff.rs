//! Retry delays for failed executions.

use vstd::prelude::*;

verus! {

/// Two to the power `n`.
pub open spec fn pow2(n: nat) -> nat
    decreases n,
{
    if n == 0 {
        1
    } else {
        2 * pow2((n - 1) as nat)
    }
}

/// The delay before the next try after `failures` failed executions in a row:
/// nothing while nothing has failed, then `base`, doubled with every further
/// failure and never above `cap`.
pub open spec fn backoff_delay(failures: nat, base: nat, cap: nat) -> nat {
    if failures == 0 {
        0
    } else if base * pow2((failures - 1) as nat) <= cap {
        base * pow2((failures - 1) as nat)
    } else {
        cap
    }
}

proof fn lemma_pow2_positive(n: nat)
    ensures
        pow2(n) >= 1,
    decreases n,
{
    if n > 0 {
        lemma_pow2_positive((n - 1) as nat);
    }
}

proof fn lemma_scaled_pow2_grows(base: nat, n: nat, m: nat)
    requires
        n <= m,
    ensures
        base * pow2(n) <= base * pow2(m),
    decreases m - n,
{
    if n < m {
        lemma_scaled_pow2_grows(base, n, (m - 1) as nat);
        lemma_pow2_positive((m - 1) as nat);
        assert(base * pow2((m - 1) as nat) <= base * pow2(m)) by (nonlinear_arith)
            requires
                pow2(m) == 2 * pow2((m - 1) as nat),
        ;
    }
}

/// Computes [`backoff_delay`] without overflow, whatever the arguments.
pub fn retry_backoff(failures: u32, base: u64, cap: u64) -> (delay: u64)
    ensures
        delay == backoff_delay(failures as nat, base as nat, cap as nat),
{
    if failures == 0 {
        return 0;
    }
    if base > cap {
        proof {
            lemma_pow2_positive((failures - 1) as nat);
            assert(base * pow2((failures - 1) as nat) >= base) by (nonlinear_arith)
                requires
                    pow2((failures - 1) as nat) >= 1,
            ;
        }
        return cap;
    }
    let mut delay: u64 = base;
    let mut step: u32 = 1;
    assert(base * pow2(0) == base) by (nonlinear_arith)
        requires
            pow2(0) == 1,
    ;
    while step < failures
        invariant
            1 <= step <= failures,
            delay <= cap,
            delay == base * pow2((step - 1) as nat),
        decreases failures - step,
    {
        if delay > cap - delay {
            proof {
                lemma_scaled_pow2_grows(base as nat, step as nat, (failures - 1) as nat);
                assert(base * pow2(step as nat) == 2 * (base * pow2((step - 1) as nat)))
                    by (nonlinear_arith)
                    requires
                        pow2(step as nat) == 2 * pow2((step - 1) as nat),
                ;
            }
            return cap;
        }
        proof {
            assert(base * pow2(step as nat) == 2 * (base * pow2((step - 1) as nat)))
                by (nonlinear_arith)
                requires
                    pow2(step as nat) == 2 * pow2((step - 1) as nat),
            ;
        }
        delay = delay + delay;
        step = step + 1;
    }
    delay
}

} // verus!
