use vstd::prelude::*;

verus! {

/// Which way a swap trades through a relic's liquidity pool.
#[derive(Clone, Copy, Debug, PartialEq, Eq, Structural)]
pub enum SwapDirection {
    /// The base token goes in, the relic comes out.
    BaseToQuote,
    /// The relic goes in, the base token comes out.
    QuoteToBase,
}

/// A swap request against a pool.
#[derive(Clone, Copy, Debug, PartialEq, Eq, Structural)]
pub enum PoolSwap {
    /// Put in exactly `input`, and take out at least `min_output` where it is set.
    Input { direction: SwapDirection, input: u128, min_output: Option<u128> },
    /// Take out exactly `output`, and put in at most `max_input` where it is set.
    Output { direction: SwapDirection, output: u128, max_input: Option<u128> },
}

/// The effect of a swap: what goes in, what comes out, and the fee taken.
#[derive(Clone, Copy, Debug, PartialEq, Eq, Structural)]
pub struct BalanceDiff {
    pub direction: SwapDirection,
    pub input: u128,
    pub output: u128,
    pub fee: u128,
}

/// Why a pool refused to compute a swap.
#[derive(Clone, Copy, Debug, PartialEq, Eq, Structural)]
pub struct PoolError;

/// The liquidity pool of a relic: base token against relic.
#[derive(Clone, Copy, Debug, PartialEq, Eq, Structural)]
pub struct Pool {
    /// base token in the pool
    pub base_supply: u128,
    /// relic in the pool
    pub quote_supply: u128,
    /// trading fee in basis points
    pub fee_bps: u16,
    /// base token sponsored by the enshrining, before the pool is bootstrapped
    pub subsidy: u128,
}

impl Pool {
    /// The stored form: `(base_supply, quote_supply, fee_bps, subsidy)`.
    pub fn store(self) -> (value: (u128, u128, u16, u128))
        ensures
            value == (self.base_supply, self.quote_supply, self.fee_bps, self.subsidy),
    {
        (self.base_supply, self.quote_supply, self.fee_bps, self.subsidy)
    }

    pub fn load(value: (u128, u128, u16, u128)) -> (pool: Pool)
        ensures
            pool == (Pool {
                base_supply: value.0,
                quote_supply: value.1,
                fee_bps: value.2,
                subsidy: value.3,
            }),
    {
        Pool { base_supply: value.0, quote_supply: value.1, fee_bps: value.2, subsidy: value.3 }
    }
}

} // verus!
