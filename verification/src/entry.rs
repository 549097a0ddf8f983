use crate::enshrining::{saturating_sub, BoostTerms, MintTerms, PriceModel};
use crate::error::RelicError;
use crate::pool::{BalanceDiff, Pool, PoolError, PoolSwap};
use crate::spaced_relic::{Relic, SpacedRelic};
use crate::txid::Txid;
use vstd::prelude::*;

verus! {

/// The value of an optional amount, zero where it is unset.
pub open spec fn or_zero(o: Option<u128>) -> u128 {
    match o {
        Some(v) => v,
        None => 0,
    }
}

/// `a + b`, or `u128::MAX` where it overflows.
pub open spec fn sat_add(a: u128, b: u128) -> u128 {
    if a + b > u128::MAX {
        u128::MAX
    } else {
        (a + b) as u128
    }
}

/// The sum of the values, added from the first on with saturating addition.
pub open spec fn sat_sum(s: Seq<u128>) -> u128
    decreases s.len(),
{
    if s.len() == 0 {
        0
    } else {
        sat_add(sat_sum(s.drop_last()), s.last())
    }
}

/// The stored form of mint terms: amount, block cap, cap, max unmints, price type
/// (1 fixed, 2 formula), fixed price or `a`, `b`, `c`, seed, tx cap.
pub type MintTermsValue = (
    Option<u128>,
    Option<u32>,
    Option<u128>,
    Option<u32>,
    Option<u128>,
    Option<u128>,
    Option<u128>,
    Option<u128>,
    Option<u128>,
    Option<u8>,
);

/// The stored form of boost terms: rare chance, rare multiplier cap, ultra rare
/// chance, ultra rare multiplier cap.
pub type BoostTermsValue = (Option<u32>, Option<u16>, Option<u32>, Option<u16>);

/// The stored form of a pool: base supply, quote supply, fee in bps, subsidy.
pub type PoolValue = (u128, u128, u16, u128);

/// The stored form of a relic's state: burned, mints, unmints.
pub type RelicStateValue = (u128, u128, u128);

/// The stored form of a spaced relic: the name's number and the spacers.
pub type SpacedRelicValue = (u128, u32);

/// The stored form of a relic entry, field by field.
pub type RelicEntryValue = (
    u64,
    (u128, u128),
    u16,
    u64,
    SpacedRelicValue,
    Option<char>,
    Option<u32>,
    Option<BoostTermsValue>,
    Option<MintTermsValue>,
    RelicStateValue,
    Option<PoolValue>,
    u64,
);

impl MintTerms {
    pub open spec fn spec_store(self) -> MintTermsValue {
        let (price_type, fixed_or_a, b, c) = match self.price {
            Some(PriceModel::Fixed(p)) => (Some(1u128), Some(p), None, None),
            Some(PriceModel::Formula { a, b, c }) => (Some(2u128), Some(a), Some(b), Some(c)),
            None => (None, None, None, None),
        };
        (
            self.amount,
            self.block_cap,
            self.cap,
            self.max_unmints,
            price_type,
            fixed_or_a,
            b,
            c,
            self.seed,
            self.tx_cap,
        )
    }

    pub open spec fn spec_load(value: MintTermsValue) -> MintTerms {
        let price = match value.4 {
            Some(1) => match value.5 {
                Some(p) => Some(PriceModel::Fixed(p)),
                None => None,
            },
            Some(2) => match (value.5, value.6, value.7) {
                (Some(a), Some(b), Some(c)) => Some(PriceModel::Formula { a, b, c }),
                _ => None,
            },
            _ => None,
        };
        MintTerms {
            amount: value.0,
            block_cap: value.1,
            cap: value.2,
            max_unmints: value.3,
            price,
            seed: value.8,
            tx_cap: value.9,
        }
    }

    pub fn store(self) -> (value: MintTermsValue)
        ensures
            value == self.spec_store(),
    {
        let (price_type, fixed_or_a, b, c): (
            Option<u128>,
            Option<u128>,
            Option<u128>,
            Option<u128>,
        ) = match self.price {
            Some(PriceModel::Fixed(p)) => (Some(1), Some(p), None, None),
            Some(PriceModel::Formula { a, b, c }) => (Some(2), Some(a), Some(b), Some(c)),
            None => (None, None, None, None),
        };
        (
            self.amount,
            self.block_cap,
            self.cap,
            self.max_unmints,
            price_type,
            fixed_or_a,
            b,
            c,
            self.seed,
            self.tx_cap,
        )
    }

    pub fn load(value: MintTermsValue) -> (terms: MintTerms)
        ensures
            terms == Self::spec_load(value),
    {
        let price: Option<PriceModel> = match value.4 {
            Some(1) => match value.5 {
                Some(p) => Some(PriceModel::Fixed(p)),
                None => None,
            },
            Some(2) => match (value.5, value.6, value.7) {
                (Some(a), Some(b), Some(c)) => Some(PriceModel::Formula { a, b, c }),
                _ => None,
            },
            _ => None,
        };
        MintTerms {
            amount: value.0,
            block_cap: value.1,
            cap: value.2,
            max_unmints: value.3,
            price,
            seed: value.8,
            tx_cap: value.9,
        }
    }
}

impl BoostTerms {
    pub open spec fn spec_store(self) -> BoostTermsValue {
        (
            self.rare_chance,
            self.rare_multiplier_cap,
            self.ultra_rare_chance,
            self.ultra_rare_multiplier_cap,
        )
    }

    pub open spec fn spec_load(value: BoostTermsValue) -> BoostTerms {
        BoostTerms {
            rare_chance: value.0,
            rare_multiplier_cap: value.1,
            ultra_rare_chance: value.2,
            ultra_rare_multiplier_cap: value.3,
        }
    }

    pub fn store(self) -> (value: BoostTermsValue)
        ensures
            value == self.spec_store(),
    {
        (
            self.rare_chance,
            self.rare_multiplier_cap,
            self.ultra_rare_chance,
            self.ultra_rare_multiplier_cap,
        )
    }

    pub fn load(value: BoostTermsValue) -> (terms: BoostTerms)
        ensures
            terms == Self::spec_load(value),
    {
        BoostTerms {
            rare_chance: value.0,
            rare_multiplier_cap: value.1,
            ultra_rare_chance: value.2,
            ultra_rare_multiplier_cap: value.3,
        }
    }
}

/// What has happened to a relic's supply so far.
#[derive(Clone, Copy, Debug, PartialEq, Eq, Structural)]
pub struct RelicState {
    /// amount burned
    pub burned: u128,
    /// number of mints
    pub mints: u128,
    /// number of unmints
    pub unmints: u128,
}

impl Default for RelicState {
    fn default() -> (s: Self)
        ensures
            s == (RelicState { burned: 0, mints: 0, unmints: 0 }),
    {
        RelicState { burned: 0, mints: 0, unmints: 0 }
    }
}

impl RelicState {
    pub fn store(self) -> (value: RelicStateValue)
        ensures
            value == (self.burned, self.mints, self.unmints),
    {
        (self.burned, self.mints, self.unmints)
    }

    pub fn load(value: RelicStateValue) -> (s: RelicState)
        ensures
            s == (RelicState { burned: value.0, mints: value.1, unmints: value.2 }),
    {
        RelicState { burned: value.0, mints: value.1, unmints: value.2 }
    }
}

/// Everything the index records of an enshrined relic.
#[derive(Clone, Copy, Debug, PartialEq, Eq, Structural)]
pub struct RelicEntry {
    /// block in which the relic was enshrined
    pub block: u64,
    /// the enshrining transaction
    pub enshrining: Txid,
    /// trading fee in bps
    pub fee: u16,
    /// number of relics enshrined before this one
    pub number: u64,
    pub spaced_relic: SpacedRelic,
    pub symbol: Option<char>,
    /// sequence number of the sealing inscription, whose owner collects the fees
    pub owner_sequence_number: Option<u32>,
    pub boost_terms: Option<BoostTerms>,
    pub mint_terms: Option<MintTerms>,
    pub state: RelicState,
    pub pool: Option<Pool>,
    pub timestamp: u64,
}

impl Default for RelicEntry {
    fn default() -> (e: Self)
        ensures
            e == (RelicEntry {
                block: 0,
                enshrining: Txid { low: 0, high: 0 },
                fee: 100,
                number: 0,
                spaced_relic: SpacedRelic { relic: Relic(0), spacers: 0 },
                symbol: None,
                owner_sequence_number: None,
                boost_terms: None,
                mint_terms: None,
                state: RelicState { burned: 0, mints: 0, unmints: 0 },
                pool: None,
                timestamp: 0,
            }),
    {
        RelicEntry {
            block: 0,
            enshrining: Txid::all_zeros(),
            fee: 100,
            number: 0,
            spaced_relic: SpacedRelic::default(),
            symbol: None,
            owner_sequence_number: None,
            boost_terms: None,
            mint_terms: None,
            state: RelicState::default(),
            pool: None,
            timestamp: 0,
        }
    }
}

/// What a swap that the pool computed gives, given the balance that pays for it.
pub open spec fn spec_swap_outcome(
    calculated: Result<BalanceDiff, PoolError>,
    balance: Option<u128>,
) -> Result<BalanceDiff, RelicError> {
    match calculated {
        Ok(diff) => {
            if balance is Some && diff.input > balance.unwrap() {
                Err(RelicError::SwapInsufficientBalance(diff.input))
            } else {
                Ok(diff)
            }
        },
        Err(cause) => Err(RelicError::SwapFailed(cause)),
    }
}

/// Checks a swap that the pool computed against the balance that pays for it.
pub fn swap_outcome(calculated: Result<BalanceDiff, PoolError>, balance: Option<u128>) -> (r:
    Result<BalanceDiff, RelicError>)
    ensures
        r == spec_swap_outcome(calculated, balance),
{
    match calculated {
        Ok(diff) => {
            if let Some(balance) = balance {
                if diff.input > balance {
                    return Err(RelicError::SwapInsufficientBalance(diff.input));
                }
            }
            Ok(diff)
        },
        Err(cause) => Err(RelicError::SwapFailed(cause)),
    }
}

/// The prices that the last `n` mints (latest first) were paid, where each is defined.
pub open spec fn spec_unmint_prices(terms: MintTerms, mints: u128, n: nat) -> Option<Seq<u128>>
    decreases n,
{
    if n == 0 {
        Some(Seq::empty())
    } else {
        match spec_unmint_prices(terms, mints, (n - 1) as nat) {
            Some(prices) => match terms.spec_price((mints - n) as u128) {
                Some(p) => Some(prices.push(p)),
                None => None,
            },
            None => None,
        }
    }
}

proof fn lemma_unmint_prices_undefined(terms: MintTerms, mints: u128, n: nat, m: nat)
    requires
        n <= m,
        spec_unmint_prices(terms, mints, n) is None,
    ensures
        spec_unmint_prices(terms, mints, m) is None,
    decreases m - n,
{
    if n < m {
        lemma_unmint_prices_undefined(terms, mints, n, (m - 1) as nat);
    }
}

/// Where the total price of `count` mints is defined, so is the price of each.
pub(crate) proof fn lemma_total_price_defines_prices(terms: MintTerms, start: u128, count: u8, i: int)
    requires
        terms.spec_total_price(start, count) is Some,
        0 <= i < count,
        start + i <= u128::MAX,
    ensures
        terms.spec_price((start + i) as u128) is Some,
{
    match terms.price {
        Some(PriceModel::Fixed(_)) => {},
        Some(p) => {
            p.lemma_price_sum_prefix(start as int, (i + 1) as nat, count as nat);
        },
        None => {},
    }
}

impl RelicEntry {
    pub open spec fn spec_is_free(self) -> bool {
        match self.mint_terms {
            Some(terms) => terms.price is None || terms.price == Some(PriceModel::Fixed(0)),
            None => false,
        }
    }

    /// How many of `num_mints` requested mints can still happen: no more than the
    /// cap leaves.
    pub open spec fn spec_actual_mints(self, terms: MintTerms, num_mints: u8) -> u8 {
        let remaining = saturating_sub(or_zero(terms.cap), self.state.mints);
        if remaining < num_mints {
            remaining as u8
        } else {
            num_mints
        }
    }

    /// What `mintable` gives: for each mint that can happen, the amount minted and
    /// the price paid, or why the mint is refused.
    pub open spec fn spec_mintable(self, base_balance: u128, num_mints: u8, base_limit: u128) -> Result<
        Seq<(u128, u128)>,
        RelicError,
    > {
        match self.mint_terms {
            None => Err(RelicError::Unmintable),
            Some(terms) => {
                if self.spec_is_free() && num_mints > 1 {
                    Err(RelicError::MaxMintPerTxExceeded(1))
                } else if terms.tx_cap is Some && num_mints > terms.tx_cap.unwrap() {
                    Err(RelicError::MaxMintPerTxExceeded(terms.tx_cap.unwrap()))
                } else if saturating_sub(or_zero(terms.cap), self.state.mints) == 0 {
                    Err(RelicError::MintCap(or_zero(terms.cap)))
                } else {
                    let actual = self.spec_actual_mints(terms, num_mints);
                    match terms.spec_total_price(self.state.mints, actual) {
                        None => Err(RelicError::PriceComputationError),
                        Some(total) => {
                            if base_limit < total {
                                Err(RelicError::MintBaseLimitExceeded(base_limit, total))
                            } else if base_balance < total {
                                Err(RelicError::MintInsufficientBalance(total))
                            } else {
                                Ok(
                                    Seq::new(
                                        actual as nat,
                                        |i: int|
                                            (
                                                or_zero(terms.amount),
                                                terms.spec_price(
                                                    (self.state.mints + i) as u128,
                                                ).unwrap(),
                                            ),
                                    ),
                                )
                            }
                        },
                    }
                }
            },
        }
    }

    /// What `unmintable` gives: for each of the last `num_mints` mints, latest first,
    /// the amount to give back and the price to refund, or why the unmint is refused.
    pub open spec fn spec_unmintable(self, balance: u128, num_mints: u8, base_min: u128) -> Result<
        Seq<(u128, u128)>,
        RelicError,
    > {
        match self.mint_terms {
            None => Err(RelicError::Unmintable),
            Some(terms) => match terms.max_unmints {
                None => Err(RelicError::UnmintNotAllowed),
                Some(max_unmints) => {
                    if self.state.mints < num_mints {
                        Err(RelicError::NoMintsToUnmint)
                    } else if self.spec_is_free() {
                        Err(RelicError::UnmintNotAllowed)
                    } else if or_zero(terms.cap) != 0 && self.state.mints == or_zero(terms.cap) {
                        Err(RelicError::UnmintNotAllowed)
                    } else if self.state.unmints + num_mints > max_unmints {
                        Err(RelicError::UnmintNotAllowed)
                    } else {
                        match spec_unmint_prices(terms, self.state.mints, num_mints as nat) {
                            None => Err(RelicError::PriceComputationError),
                            Some(prices) => {
                                let amount = or_zero(terms.amount);
                                let total_amount = sat_sum(
                                    Seq::new(num_mints as nat, |i: int| amount),
                                );
                                let total_price = sat_sum(prices);
                                if balance < total_amount {
                                    Err(RelicError::MintInsufficientBalance(total_amount))
                                } else if total_price < base_min {
                                    Err(RelicError::MintBaseLimitExceeded(base_min, total_price))
                                } else {
                                    Ok(Seq::new(num_mints as nat, |i: int| (amount, prices[i])))
                                }
                            },
                        }
                    }
                },
            },
        }
    }

    /// The relic has a pool that can be swapped with: bootstrapped, with both
    /// supplies non-zero and no subsidy left.
    pub open spec fn spec_swap_available(self) -> bool {
        match self.pool {
            Some(pool) => pool.base_supply != 0 && pool.quote_supply != 0 && pool.subsidy == 0,
            None => false,
        }
    }

    /// Amount per mint times cap, plus the seed.
    pub open spec fn spec_max_supply(self) -> int {
        match self.mint_terms {
            Some(terms) => or_zero(terms.amount) * or_zero(terms.cap) + or_zero(terms.seed),
            None => 0,
        }
    }

    /// Minted plus seed, less what is still in the pool (the seed where there is no
    /// pool yet) and what was burned.
    pub open spec fn spec_circulating_supply(self) -> int {
        let amount = match self.mint_terms {
            Some(terms) => or_zero(terms.amount),
            None => 0,
        };
        let seed = match self.mint_terms {
            Some(terms) => or_zero(terms.seed),
            None => 0,
        };
        let pool_quote = match self.pool {
            Some(pool) => pool.quote_supply,
            None => seed,
        };
        self.state.mints * amount + seed - pool_quote - self.state.burned
    }

    /// The base token held for the relic: the pool's base supply once bootstrapped,
    /// else the subsidy, else what the mints so far paid.
    pub open spec fn spec_locked_base_supply(self) -> int {
        if self.pool is Some && self.pool.unwrap().base_supply > 0 {
            self.pool.unwrap().base_supply as int
        } else if self.pool is Some && self.pool.unwrap().subsidy > 0 {
            self.pool.unwrap().subsidy as int
        } else {
            match self.mint_terms {
                Some(terms) => match terms.price {
                    Some(PriceModel::Fixed(fixed)) => self.state.mints * fixed,
                    Some(PriceModel::Formula { .. }) => sat_sum(
                        Seq::new(
                            self.state.mints as nat,
                            |x: int|
                                match terms.spec_price(x as u128) {
                                    Some(p) => p,
                                    None => 0u128,
                                },
                        ),
                    ) as int,
                    None => 0,
                },
                None => 0,
            }
        }
    }

    /// A free relic costs nothing to mint: it has mint terms without a price, or
    /// with a fixed price of zero.
    pub fn is_free(&self) -> (r: bool)
        ensures
            r == self.spec_is_free(),
    {
        match self.mint_terms {
            Some(terms) => match terms.price {
                None => true,
                Some(PriceModel::Fixed(p)) => p == 0,
                Some(PriceModel::Formula { .. }) => false,
            },
            None => false,
        }
    }

    /// The mints that `num_mints` requested mints amount to, each as the amount
    /// minted and the price paid, given the base token balance and the most base
    /// token the minter is willing to spend.
    pub fn mintable(&self, base_balance: u128, num_mints: u8, base_limit: u128) -> (r: Result<
        Vec<(u128, u128)>,
        RelicError,
    >)
        ensures
            match r {
                Ok(v) => self.spec_mintable(base_balance, num_mints, base_limit) == Ok::<
                    Seq<(u128, u128)>,
                    RelicError,
                >(v@),
                Err(e) => self.spec_mintable(base_balance, num_mints, base_limit) == Err::<
                    Seq<(u128, u128)>,
                    RelicError,
                >(e),
            },
    {
        let terms = match self.mint_terms {
            Some(t) => t,
            None => return Err(RelicError::Unmintable),
        };
        if self.is_free() && num_mints > 1 {
            return Err(RelicError::MaxMintPerTxExceeded(1));
        }
        if let Some(max_tx) = terms.tx_cap {
            if num_mints > max_tx {
                return Err(RelicError::MaxMintPerTxExceeded(max_tx));
            }
        }
        let cap: u128 = match terms.cap {
            Some(c) => c,
            None => 0,
        };
        let current_mints = self.state.mints;
        let remaining = cap.saturating_sub(current_mints);
        if remaining == 0 {
            return Err(RelicError::MintCap(cap));
        }
        let actual_mints: u8 = if remaining < num_mints as u128 {
            remaining as u8
        } else {
            num_mints
        };
        let total_price = match terms.compute_total_price(current_mints, actual_mints) {
            Some(t) => t,
            None => return Err(RelicError::PriceComputationError),
        };
        if base_limit < total_price {
            return Err(RelicError::MintBaseLimitExceeded(base_limit, total_price));
        }
        if base_balance < total_price {
            return Err(RelicError::MintInsufficientBalance(total_price));
        }
        let amount: u128 = match terms.amount {
            Some(a) => a,
            None => 0,
        };
        let ghost expected = Seq::new(
            actual_mints as nat,
            |i: int| (amount, terms.spec_price((current_mints + i) as u128).unwrap()),
        );
        let mut results: Vec<(u128, u128)> = Vec::new();
        let mut i: u8 = 0;
        while i < actual_mints
            invariant
                i <= actual_mints,
                actual_mints as int <= remaining,
                remaining == cap - current_mints,
                cap <= u128::MAX,
                terms.spec_total_price(current_mints, actual_mints) is Some,
                results@ == expected.take(i as int),
                expected == Seq::new(
                    actual_mints as nat,
                    |j: int| (amount, terms.spec_price((current_mints + j) as u128).unwrap()),
                ),
            decreases actual_mints - i,
        {
            proof {
                lemma_total_price_defines_prices(terms, current_mints, actual_mints, i as int);
            }
            let x: u128 = current_mints + i as u128;
            let price = match terms.compute_price(x) {
                Some(p) => p,
                None => return Err(RelicError::PriceComputationError),
            };
            results.push((amount, price));
            proof {
                assert(results@ =~= expected.take(i + 1));
            }
            i = i + 1;
        }
        proof {
            assert(results@ =~= expected);
        }
        Ok(results)
    }

    /// The unmints of the last `num_mints` mints, latest first, each as the amount
    /// given back and the price refunded, given the relic balance and the least
    /// base token the unminter is willing to receive.
    pub fn unmintable(&self, balance: u128, num_mints: u8, base_min: u128) -> (r: Result<
        Vec<(u128, u128)>,
        RelicError,
    >)
        ensures
            match r {
                Ok(v) => self.spec_unmintable(balance, num_mints, base_min) == Ok::<
                    Seq<(u128, u128)>,
                    RelicError,
                >(v@),
                Err(e) => self.spec_unmintable(balance, num_mints, base_min) == Err::<
                    Seq<(u128, u128)>,
                    RelicError,
                >(e),
            },
    {
        let terms = match self.mint_terms {
            Some(t) => t,
            None => return Err(RelicError::Unmintable),
        };
        let max_unmints: u128 = match terms.max_unmints {
            Some(m) => m as u128,
            None => return Err(RelicError::UnmintNotAllowed),
        };
        if self.state.mints < num_mints as u128 {
            return Err(RelicError::NoMintsToUnmint);
        }
        if self.is_free() {
            return Err(RelicError::UnmintNotAllowed);
        }
        let cap: u128 = match terms.cap {
            Some(c) => c,
            None => 0,
        };
        if cap != 0 && self.state.mints == cap {
            return Err(RelicError::UnmintNotAllowed);
        }
        if num_mints as u128 > max_unmints || self.state.unmints > max_unmints - num_mints as u128 {
            return Err(RelicError::UnmintNotAllowed);
        }
        let amount: u128 = match terms.amount {
            Some(a) => a,
            None => 0,
        };
        let mints = self.state.mints;
        let mut results: Vec<(u128, u128)> = Vec::new();
        let mut total_amount: u128 = 0;
        let mut total_price: u128 = 0;
        let ghost mut prices: Seq<u128> = Seq::empty();
        let mut i: u8 = 0;
        while i < num_mints
            invariant
                i <= num_mints,
                num_mints <= mints,
                mints == self.state.mints,
                self.mint_terms == Some(terms),
                !self.spec_is_free(),
                terms.max_unmints is Some,
                !(or_zero(terms.cap) != 0 && mints == or_zero(terms.cap)),
                self.state.unmints + num_mints <= terms.max_unmints.unwrap(),
                spec_unmint_prices(terms, mints, i as nat) == Some(prices),
                prices.len() == i,
                results@ == Seq::new(i as nat, |j: int| (amount, prices[j])),
                total_amount == sat_sum(Seq::new(i as nat, |j: int| amount)),
                total_price == sat_sum(prices),
            decreases num_mints - i,
        {
            let mint_index: u128 = mints - 1 - i as u128;
            let price: u128 = match terms.price {
                Some(PriceModel::Fixed(fixed)) => fixed,
                Some(PriceModel::Formula { .. }) => match terms.compute_price(mint_index) {
                    Some(p) => p,
                    None => {
                        proof {
                            assert(spec_unmint_prices(terms, mints, (i + 1) as nat) is None);
                            lemma_unmint_prices_undefined(
                                terms,
                                mints,
                                (i + 1) as nat,
                                num_mints as nat,
                            );
                        }
                        return Err(RelicError::PriceComputationError);
                    },
                },
                None => return Err(RelicError::PriceComputationError),
            };
            let ghost old_prices = prices;
            proof {
                prices = prices.push(price);
                assert(Seq::new((i + 1) as nat, |j: int| amount).drop_last() =~= Seq::new(
                    i as nat,
                    |j: int| amount,
                ));
                assert(prices.drop_last() =~= old_prices);
            }
            total_amount = total_amount.saturating_add(amount);
            total_price = total_price.saturating_add(price);
            let ghost old_results = results@;
            results.push((amount, price));
            proof {
                assert forall|j: int| 0 <= j < i + 1 implies results@[j] == (amount, prices[j]) by {
                    if j < i {
                        assert(old_results[j] == (amount, old_prices[j]));
                    }
                }
                assert(results@ =~= Seq::new((i + 1) as nat, |j: int| (amount, prices[j])));
            }
            i = i + 1;
        }
        if balance < total_amount {
            return Err(RelicError::MintInsufficientBalance(total_amount));
        }
        if total_price < base_min {
            return Err(RelicError::MintBaseLimitExceeded(base_min, total_price));
        }
        Ok(results)
    }

    /// A swap against the relic's pool. `calculate` is the pool's computation of the
    /// swap; the swap is refused before it is asked where there is no usable pool,
    /// and the input must not exceed `balance` where that is given.
    pub fn swap<F: Fn(Pool, PoolSwap) -> Result<BalanceDiff, PoolError>>(
        &self,
        swap: PoolSwap,
        balance: Option<u128>,
        calculate: F,
    ) -> (r: Result<BalanceDiff, RelicError>)
        requires
            self.spec_swap_available() ==> calculate.requires((self.pool.unwrap(), swap)),
        ensures
            !self.spec_swap_available() ==> r == Err::<BalanceDiff, RelicError>(
                RelicError::SwapNotAvailable,
            ),
            self.spec_swap_available() ==> exists|c: Result<BalanceDiff, PoolError>|
                #[trigger] calculate.ensures((self.pool.unwrap(), swap), c) && r
                    == spec_swap_outcome(c, balance),
    {
        let pool = match self.pool {
            Some(p) => p,
            None => return Err(RelicError::SwapNotAvailable),
        };
        if pool.base_supply == 0 || pool.quote_supply == 0 {
            return Err(RelicError::SwapNotAvailable);
        }
        if pool.subsidy > 0 {
            return Err(RelicError::SwapNotAvailable);
        }
        let calculated = calculate(pool, swap);
        swap_outcome(calculated, balance)
    }

    /// Maximum supply: what all mints create plus the seed added to the pool when the
    /// mint concludes.
    pub fn max_supply(&self) -> (r: u128)
        requires
            self.spec_max_supply() <= u128::MAX,
        ensures
            r == self.spec_max_supply(),
    {
        match self.mint_terms {
            Some(terms) => {
                let amount: u128 = match terms.amount {
                    Some(a) => a,
                    None => 0,
                };
                let cap: u128 = match terms.cap {
                    Some(c) => c,
                    None => 0,
                };
                let seed: u128 = match terms.seed {
                    Some(s) => s,
                    None => 0,
                };
                proof {
                    assert(0 <= amount * cap) by (nonlinear_arith);
                }
                amount * cap + seed
            },
            None => 0,
        }
    }

    /// Circulating supply: minted or swapped out of the pool, less what was burned.
    pub fn circulating_supply(&self) -> (r: u128)
        requires
            self.state.mints * (match self.mint_terms {
                Some(terms) => or_zero(terms.amount),
                None => 0,
            }) + (match self.mint_terms {
                Some(terms) => or_zero(terms.seed),
                None => 0,
            }) <= u128::MAX,
            self.spec_circulating_supply() + self.state.burned >= 0,
            self.spec_circulating_supply() >= 0,
        ensures
            r == self.spec_circulating_supply(),
    {
        let amount: u128 = match self.mint_terms {
            Some(terms) => match terms.amount {
                Some(a) => a,
                None => 0,
            },
            None => 0,
        };
        let seed: u128 = match self.mint_terms {
            Some(terms) => match terms.seed {
                Some(s) => s,
                None => 0,
            },
            None => 0,
        };
        let pool_quote_supply: u128 = match self.pool {
            Some(pool) => pool.quote_supply,
            None => seed,
        };
        proof {
            assert(0 <= self.state.mints * amount) by (nonlinear_arith);
        }
        self.state.mints * amount + seed - pool_quote_supply - self.state.burned
    }

    /// The base token locked for this relic.
    pub fn locked_base_supply(&self) -> (r: u128)
        requires
            self.spec_locked_base_supply() <= u128::MAX,
        ensures
            r == self.spec_locked_base_supply(),
    {
        if let Some(pool) = self.pool {
            if pool.base_supply > 0 {
                return pool.base_supply;
            } else if pool.subsidy > 0 {
                return pool.subsidy;
            }
        }
        match self.mint_terms {
            Some(terms) => match terms.price {
                Some(PriceModel::Fixed(fixed)) => {
                    proof {
                        assert(0 <= self.state.mints * fixed) by (nonlinear_arith);
                    }
                    self.state.mints * fixed
                },
                Some(PriceModel::Formula { .. }) => {
                    let ghost f = |x: int|
                        match terms.spec_price(x as u128) {
                            Some(p) => p,
                            None => 0u128,
                        };
                    let mut total: u128 = 0;
                    let mut x: u128 = 0;
                    while x < self.state.mints
                        invariant
                            x <= self.state.mints,
                            total == sat_sum(Seq::new(x as nat, f)),
                            f == (|x: int|
                                match terms.spec_price(x as u128) {
                                    Some(p) => p,
                                    None => 0u128,
                                }),
                        decreases self.state.mints - x,
                    {
                        let price: u128 = match terms.compute_price(x) {
                            Some(p) => p,
                            None => 0,
                        };
                        proof {
                            assert(Seq::new((x + 1) as nat, f).drop_last() =~= Seq::new(
                                x as nat,
                                f,
                            ));
                        }
                        total = total.saturating_add(price);
                        x = x + 1;
                    }
                    total
                },
                None => 0,
            },
            None => 0,
        }
    }

    pub open spec fn spec_store(self) -> RelicEntryValue {
        (
            self.block,
            (self.enshrining.low, self.enshrining.high),
            self.fee,
            self.number,
            (self.spaced_relic.relic.0, self.spaced_relic.spacers),
            self.symbol,
            self.owner_sequence_number,
            match self.boost_terms {
                Some(b) => Some(b.spec_store()),
                None => None,
            },
            match self.mint_terms {
                Some(t) => Some(t.spec_store()),
                None => None,
            },
            (self.state.burned, self.state.mints, self.state.unmints),
            match self.pool {
                Some(p) => Some((p.base_supply, p.quote_supply, p.fee_bps, p.subsidy)),
                None => None,
            },
            self.timestamp,
        )
    }

    pub open spec fn spec_load(value: RelicEntryValue) -> RelicEntry {
        RelicEntry {
            block: value.0,
            enshrining: Txid { low: value.1.0, high: value.1.1 },
            fee: value.2,
            number: value.3,
            spaced_relic: SpacedRelic { relic: Relic(value.4.0), spacers: value.4.1 },
            symbol: value.5,
            owner_sequence_number: value.6,
            boost_terms: match value.7 {
                Some(b) => Some(BoostTerms::spec_load(b)),
                None => None,
            },
            mint_terms: match value.8 {
                Some(t) => Some(MintTerms::spec_load(t)),
                None => None,
            },
            state: RelicState { burned: value.9.0, mints: value.9.1, unmints: value.9.2 },
            pool: match value.10 {
                Some(p) => Some(Pool { base_supply: p.0, quote_supply: p.1, fee_bps: p.2, subsidy: p.3 }),
                None => None,
            },
            timestamp: value.11,
        }
    }

    /// The stored form of the entry; the enshrining transaction as its two
    /// little-endian halves.
    pub fn store(self) -> (value: RelicEntryValue)
        ensures
            value == self.spec_store(),
    {
        let boost: Option<BoostTermsValue> = match self.boost_terms {
            Some(b) => Some(b.store()),
            None => None,
        };
        let terms: Option<MintTermsValue> = match self.mint_terms {
            Some(t) => Some(t.store()),
            None => None,
        };
        let pool: Option<PoolValue> = match self.pool {
            Some(p) => Some(p.store()),
            None => None,
        };
        (
            self.block,
            (self.enshrining.low, self.enshrining.high),
            self.fee,
            self.number,
            self.spaced_relic.store(),
            self.symbol,
            self.owner_sequence_number,
            boost,
            terms,
            self.state.store(),
            pool,
            self.timestamp,
        )
    }

    pub fn load(value: RelicEntryValue) -> (entry: RelicEntry)
        ensures
            entry == Self::spec_load(value),
    {
        let boost_terms: Option<BoostTerms> = match value.7 {
            Some(b) => Some(BoostTerms::load(b)),
            None => None,
        };
        let mint_terms: Option<MintTerms> = match value.8 {
            Some(t) => Some(MintTerms::load(t)),
            None => None,
        };
        let pool: Option<Pool> = match value.10 {
            Some(p) => Some(Pool::load(p)),
            None => None,
        };
        RelicEntry {
            block: value.0,
            enshrining: Txid { low: (value.1).0, high: (value.1).1 },
            fee: value.2,
            number: value.3,
            spaced_relic: SpacedRelic::load(value.4),
            symbol: value.5,
            owner_sequence_number: value.6,
            boost_terms,
            mint_terms,
            state: RelicState::load(value.9),
            pool,
            timestamp: value.11,
        }
    }
}

/// Loading what an entry stores gives the entry back.
pub proof fn lemma_relic_entry_roundtrip(entry: RelicEntry)
    ensures
        RelicEntry::spec_load(entry.spec_store()) == entry,
{
    if let Some(t) = entry.mint_terms {
        lemma_mint_terms_roundtrip(t);
    }
}

/// Loading what mint terms store gives the terms back.
pub proof fn lemma_mint_terms_roundtrip(terms: MintTerms)
    ensures
        MintTerms::spec_load(terms.spec_store()) == terms,
{
}

} // verus!
