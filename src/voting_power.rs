use vstd::prelude::*;

verus! {

/// Voting power is held in fixed point: a value of `VOTING_POWER_SCALE`
/// parts is the whole of the voting power of an epoch.
pub const VOTING_POWER_SCALE: u64 = 1_000_000_000;

/// A quorum threshold, the exact fraction `numer / denom` of the whole
/// voting power.
#[derive(Clone, Copy, Debug, PartialEq, Eq)]
pub struct Quorum {
    pub numer: u64,
    pub denom: u64,
}

/// `power` (in parts of `VOTING_POWER_SCALE`) reaches the quorum `q`.
pub open spec fn reaches(power: nat, q: Quorum) -> bool {
    power * q.denom >= q.numer * VOTING_POWER_SCALE
}

proof fn lemma_product_fits(a: u64, b: u64)
    ensures
        (a as int) * (b as int) <= u128::MAX,
{
    assert((a as int) * (b as int) <= (u64::MAX as int) * (u64::MAX as int)) by (nonlinear_arith)
        requires
            a <= u64::MAX,
            b <= u64::MAX,
    ;
}

impl Quorum {
    /// Tells whether `power`, in parts of `VOTING_POWER_SCALE`, meets or
    /// exceeds this threshold.
    pub fn is_reached_by(&self, power: u64) -> (r: bool)
        ensures
            r == reaches(power as nat, *self),
    {
        proof {
            lemma_product_fits(power, self.denom);
            lemma_product_fits(self.numer, VOTING_POWER_SCALE);
        }
        let lhs: u128 = (power as u128) * (self.denom as u128);
        let rhs: u128 = (self.numer as u128) * (VOTING_POWER_SCALE as u128);
        lhs >= rhs
    }
}

} // verus!
