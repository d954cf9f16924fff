//! Market regimes.

use vstd::prelude::*;

verus! {

/// Market regime, from quiet to critical.
#[derive(Debug, Clone, Copy, PartialEq, Eq, PartialOrd, Ord, Structural)]
pub enum Regime {
    Calm,
    Volatile,
    Aggressive,
    Crisis,
}

/// The number of a regime on the wire.
pub open spec fn regime_code(r: Regime) -> u8 {
    match r {
        Regime::Calm => 0,
        Regime::Volatile => 1,
        Regime::Aggressive => 2,
        Regime::Crisis => 3,
    }
}

impl Regime {
    /// The number of the regime, rising with its severity.
    pub fn code(self) -> (c: u8)
        ensures
            c == regime_code(self),
    {
        match self {
            Regime::Calm => 0,
            Regime::Volatile => 1,
            Regime::Aggressive => 2,
            Regime::Crisis => 3,
        }
    }

    /// The regime that a score reaches, given which thresholds it reaches. The
    /// highest one counts, whatever the lower ones say.
    pub fn from_thresholds(volatile: bool, aggressive: bool, crisis: bool) -> (r: Regime)
        ensures
            r == (if crisis {
                Regime::Crisis
            } else if aggressive {
                Regime::Aggressive
            } else if volatile {
                Regime::Volatile
            } else {
                Regime::Calm
            }),
    {
        if crisis {
            Regime::Crisis
        } else if aggressive {
            Regime::Aggressive
        } else if volatile {
            Regime::Volatile
        } else {
            Regime::Calm
        }
    }
}

// ─── Laws ───────────────────────────────────────────────────────────

/// The numbers of the regimes are zero to three, and rise from calm to crisis.
pub proof fn regimes_rise()
    ensures
        regime_code(Regime::Calm) == 0,
        regime_code(Regime::Calm) < regime_code(Regime::Volatile),
        regime_code(Regime::Volatile) < regime_code(Regime::Aggressive),
        regime_code(Regime::Aggressive) < regime_code(Regime::Crisis),
        regime_code(Regime::Crisis) == 3,
        forall|a: Regime, b: Regime| regime_code(a) == regime_code(b) ==> a == b,
{
}

} // verus!
