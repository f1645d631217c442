//! Phase arithmetic.
//!
//! A spider's phase is an angle. Angles are held in fixed-point units:
//! `FULL_TURN` units make one full turn, so a phase of `FULL_TURN / 2`
//! units is half a turn. Dyadic fractions of a turn are exact in this
//! representation, and every phase stored in a graph is kept normalized
//! into the range `[0, FULL_TURN)`. All phase-producing operations route
//! through [`normalize_phase`], the single point of canonicalization.

use vstd::arithmetic::div_mod::lemma_fundamental_div_mod;
use vstd::arithmetic::div_mod::lemma_fundamental_div_mod_converse;
use vstd::prelude::*;

verus! {

/// Number of phase units in one full turn.
pub const FULL_TURN: u64 = 0x1_0000_0000;

/// The normal form of an arbitrary (possibly negative) count of phase
/// units: the mathematically equivalent angle in `[0, FULL_TURN)`. Spec
/// `%` is Euclidean, so the result is nonnegative for negative input.
pub open spec fn normal(phase: int) -> int {
    phase % (FULL_TURN as int)
}

/// Maps an arbitrary count of phase units into the canonical range
/// `[0, FULL_TURN)`, correcting negative remainders upward.
pub fn normalize_phase(phase: i64) -> (r: u64)
    ensures
        r < FULL_TURN,
        r == normal(phase as int),
{
    if phase >= 0 {
        let r = (phase as u64) % FULL_TURN;
        proof {
            lemma_fundamental_div_mod(phase as int, FULL_TURN as int);
        }
        r
    } else {
        // phase <= -1, so 0 <= -(phase + 1) <= i64::MAX fits in u64.
        let q: u64 = (-(phase + 1)) as u64;
        let m: u64 = q % FULL_TURN;
        let r = FULL_TURN - 1 - m;
        proof {
            let f = FULL_TURN as int;
            lemma_fundamental_div_mod(q as int, f);
            let d = (q as int) / f;
            // phase == -q - 1 == (-d - 1) * f + (f - 1 - m)
            assert(phase as int == (-d - 1) * f + (f - 1 - m)) by {
                assert(q as int == d * f + (m as int));
                assert((-d - 1) * f == -(d * f) - f) by (nonlinear_arith);
            }
            lemma_fundamental_div_mod_converse(phase as int, f, -d - 1, f - 1 - (m as int));
        }
        r
    }
}

/// Normalization is idempotent: a value already in the canonical range
/// is its own normal form.
pub proof fn lemma_normal_of_normal(phase: int)
    ensures
        normal(normal(phase)) == normal(phase),
{
    let f = FULL_TURN as int;
    lemma_fundamental_div_mod(phase, f);
    lemma_fundamental_div_mod_converse(phase % f, f, 0, phase % f);
}

} // verus!
