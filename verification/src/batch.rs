//! Adaptive batch sizing and ETA estimation for the assembler.
//!
//! The target batch size follows a monotonic ramp over the items already
//! committed, is scaled up when the channel is backed up (producers ahead)
//! and down when it is starved, and is always clamped to the fixed floor
//! and ceiling.  The up and down scalings are three halves and four fifths;
//! in the reachable range of base sizes both are exact in integer
//! arithmetic.

use vstd::prelude::*;

verus! {

/// Smallest batch the assembler will target.
pub const BATCH_FLOOR: usize = 20;

/// Largest batch the assembler will target.
pub const BATCH_CEILING: usize = 200;

/// The ramp: batches start small so the observer sees feedback early, then
/// grow in steps as items accumulate.
pub open spec fn spec_base_size(processed: nat) -> nat {
    if processed < 500 {
        25 + processed / 20
    } else if processed < 2000 {
        (50 + (processed - 500) / 30) as nat
    } else if (processed - 2000) / 200 < 50 {
        (100 + (processed - 2000) / 200) as nat
    } else {
        150
    }
}

/// Depth correction: a channel more than three times the base size deep
/// scales the target up by half; one under half the base size scales it
/// down to four fifths.
pub open spec fn spec_adjusted_size(base: nat, depth: nat) -> nat {
    if depth > base * 3 {
        base * 3 / 2
    } else if depth < base / 2 {
        base * 4 / 5
    } else {
        base
    }
}

/// The target batch size for a progress state: 20 for the very first
/// batch, then the ramped and depth-corrected size clamped to
/// [`BATCH_FLOOR`, `BATCH_CEILING`].
pub open spec fn spec_batch_size(processed: nat, depth: nat) -> nat {
    if processed == 0 {
        20
    } else {
        let v = spec_adjusted_size(spec_base_size(processed), depth);
        if v < 20 {
            20
        } else if v > 200 {
            200
        } else {
            v
        }
    }
}

/// Compute the batch size to aim for, from the items committed so far and
/// the current channel depth.  The result is always within the fixed floor
/// and ceiling, whatever the progress state or queue depth.
pub fn calculate_batch_size(items_processed: usize, total_items: usize, queue_depth: usize) -> (r:
    usize)
    ensures
        r == spec_batch_size(items_processed as nat, queue_depth as nat),
        BATCH_FLOOR <= r <= BATCH_CEILING,
{
    let _ = total_items;
    if items_processed == 0 {
        return 20;
    }
    let base: usize = if items_processed < 500 {
        25 + items_processed / 20
    } else if items_processed < 2000 {
        50 + (items_processed - 500) / 30
    } else {
        let step = (items_processed - 2000) / 200;
        if step < 50 {
            100 + step
        } else {
            150
        }
    };
    let adjusted: usize = if queue_depth > base * 3 {
        base * 3 / 2
    } else if queue_depth < base / 2 {
        base * 4 / 5
    } else {
        base
    };
    if adjusted < 20 {
        20
    } else if adjusted > 200 {
        200
    } else {
        adjusted
    }
}

/// The estimate broadcast with each snapshot: remaining items times the
/// observed milliseconds per item, saturating at `u64::MAX`, and zero
/// before anything is done.
pub open spec fn spec_eta_millis(done: nat, total: nat, elapsed_ms: nat) -> nat {
    if done == 0 {
        0
    } else {
        let rem = if total > done {
            (total - done) as nat
        } else {
            0
        };
        let v = rem * (elapsed_ms / done);
        if v > u64::MAX {
            u64::MAX as nat
        } else {
            v
        }
    }
}

/// Estimated milliseconds left, from items done, the known total, and the
/// elapsed milliseconds.
pub fn eta_millis(done: u64, total: u64, elapsed_ms: u64) -> (r: u64)
    ensures
        r as nat == spec_eta_millis(done as nat, total as nat, elapsed_ms as nat),
{
    if done == 0 {
        return 0;
    }
    let avg = elapsed_ms / done;
    let rem = if total > done {
        total - done
    } else {
        0
    };
    if avg != 0 && rem > u64::MAX / avg {
        proof {
            assert(rem * avg > u64::MAX) by (nonlinear_arith)
                requires
                    avg > 0,
                    rem > u64::MAX as int / avg as int,
            ;
        }
        u64::MAX
    } else {
        proof {
            if avg == 0 {
                assert(rem * avg == 0) by (nonlinear_arith)
                    requires
                        avg == 0,
                ;
            } else {
                assert(rem * avg <= u64::MAX) by (nonlinear_arith)
                    requires
                        avg > 0,
                        rem <= u64::MAX as int / avg as int,
                ;
            }
        }
        rem * avg
    }
}

/// The product of two counts, saturating at `u64::MAX`: how the modelled
/// clock turns items done into elapsed milliseconds.
pub open spec fn spec_sat_mul(a: nat, b: nat) -> nat {
    if a * b > u64::MAX {
        u64::MAX as nat
    } else {
        a * b
    }
}

/// The sum of two counts, saturating at `u64::MAX`.
pub open spec fn spec_sat_add(a: nat, b: nat) -> nat {
    if a + b > u64::MAX {
        u64::MAX as nat
    } else {
        a + b
    }
}

/// Saturating addition.
pub fn sat_add_u64(a: u64, b: u64) -> (r: u64)
    ensures
        r as nat == spec_sat_add(a as nat, b as nat),
{
    if a > u64::MAX - b {
        u64::MAX
    } else {
        a + b
    }
}

/// Saturating multiplication.
pub fn sat_mul_u64(a: u64, b: u64) -> (r: u64)
    ensures
        r as nat == spec_sat_mul(a as nat, b as nat),
{
    if b != 0 && a > u64::MAX / b {
        proof {
            assert(a * b > u64::MAX) by (nonlinear_arith)
                requires
                    b > 0,
                    a > u64::MAX as int / b as int,
            ;
        }
        u64::MAX
    } else {
        proof {
            if b == 0 {
                assert(a * b == 0) by (nonlinear_arith)
                    requires
                        b == 0,
                ;
            } else {
                assert(a * b <= u64::MAX) by (nonlinear_arith)
                    requires
                        b > 0,
                        a <= u64::MAX as int / b as int,
                ;
            }
        }
        a * b
    }
}

/// For a constant-rate producer (a fixed cost of `k` milliseconds per
/// item), the estimate never increases as items complete.
pub proof fn lemma_eta_monotone(done1: nat, done2: nat, total: nat, k: nat)
    requires
        0 < done1 <= done2 <= total,
        done2 * k <= u64::MAX,
    ensures
        spec_eta_millis(done2, total, done2 * k) <= spec_eta_millis(done1, total, done1 * k),
{
    lemma_mul_div_exact(done1, k);
    lemma_mul_div_exact(done2, k);
    assert((total - done2) * k <= (total - done1) * k) by (nonlinear_arith)
        requires
            done1 <= done2 <= total,
            k >= 0,
    ;
}

/// At completion the estimate is exactly zero.
pub proof fn lemma_eta_zero_at_end(total: nat, elapsed_ms: nat)
    requires
        total > 0,
    ensures
        spec_eta_millis(total, total, elapsed_ms) == 0,
{
}

proof fn lemma_mul_div_exact(a: nat, b: nat)
    requires
        a > 0,
    ensures
        (a * b) / a == b,
{
    assert((a * b) / a == b) by (nonlinear_arith)
        requires
            a > 0,
    ;
}

} // verus!
