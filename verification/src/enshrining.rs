use crate::flaw::RelicFlaw;
use crate::relic_id::RelicId;
use vstd::prelude::*;

verus! {

/// `a - d`, or zero where `d` exceeds `a`.
pub open spec fn saturating_sub(a: u128, d: u128) -> u128 {
    if a >= d {
        (a - d) as u128
    } else {
        0
    }
}

/// How the price of a mint is set.
#[derive(Clone, Copy, Debug, PartialEq, Eq, Structural)]
pub enum PriceModel {
    /// Every mint costs the same amount of the base token.
    Fixed(u128),
    /// The mint with index `x` costs `a - b / (c + x)`.
    Formula { a: u128, b: u128, c: u128 },
}

impl PriceModel {
    /// The price of the mint with index `x`; `None` where `c + x` overflows or is zero.
    pub open spec fn spec_price(self, x: u128) -> Option<u128> {
        match self {
            PriceModel::Fixed(p) => Some(p),
            PriceModel::Formula { a, b, c } => {
                if c + x > u128::MAX || c + x == 0 {
                    None
                } else {
                    Some(saturating_sub(a, b / ((c + x) as u128)))
                }
            },
        }
    }

    /// The price of the mint with index `x`, for any integer `x`.
    pub open spec fn spec_price_at(self, x: int) -> Option<u128> {
        if 0 <= x <= u128::MAX {
            self.spec_price(x as u128)
        } else {
            None
        }
    }

    /// The sum of the prices of the `n` mints from index `start` on, where each is defined.
    pub open spec fn spec_price_sum(self, start: int, n: nat) -> Option<int>
        decreases n,
    {
        if n == 0 {
            Some(0)
        } else {
            match (self.spec_price_sum(start, (n - 1) as nat), self.spec_price_at(start + n - 1)) {
                (Some(s), Some(p)) => Some(s + p),
                _ => None,
            }
        }
    }

    /// The total price of `count` mints from index `start` on, where it fits in a `u128`.
    pub open spec fn spec_total_price(self, start: u128, count: u8) -> Option<u128> {
        match self {
            PriceModel::Fixed(p) => {
                if p * count <= u128::MAX {
                    Some((p * count) as u128)
                } else {
                    None
                }
            },
            PriceModel::Formula { .. } => {
                match self.spec_price_sum(start as int, count as nat) {
                    Some(s) => if s <= u128::MAX {
                        Some(s as u128)
                    } else {
                        None
                    },
                    None => None,
                }
            },
        }
    }

    pub fn compute_price(&self, x: u128) -> (price: Option<u128>)
        ensures
            price == self.spec_price(x),
    {
        match *self {
            PriceModel::Fixed(price) => Some(price),
            PriceModel::Formula { a, b, c } => {
                let denom: u128 = match c.checked_add(x) {
                    Some(d) => d,
                    None => return None,
                };
                if denom > 0 {
                    Some(a.saturating_sub(b / denom))
                } else {
                    None
                }
            },
        }
    }

    /// Computes the total price for `count` mints starting at mint index `start`.
    pub fn compute_total_price(&self, start: u128, count: u8) -> (total: Option<u128>)
        ensures
            total == self.spec_total_price(start, count),
    {
        match *self {
            PriceModel::Fixed(price) => price.checked_mul(count as u128),
            PriceModel::Formula { .. } => {
                let mut total: u128 = 0;
                let mut i: u8 = 0;
                while i < count
                    invariant
                        i <= count,
                        self is Formula,
                        self.spec_price_sum(start as int, i as nat) == Some(total as int),
                    decreases count - i,
                {
                    proof {
                        self.lemma_price_sum_prefix(start as int, (i + 1) as nat, count as nat);
                    }
                    let x: u128 = match start.checked_add(i as u128) {
                        Some(x) => x,
                        None => return None,
                    };
                    if let Some(computed_price) = self.compute_price(x) {
                        total = match total.checked_add(computed_price) {
                            Some(t) => t,
                            None => return None,
                        };
                    } else {
                        return None;
                    }
                    i = i + 1;
                }
                Some(total)
            },
        }
    }

    /// A defined sum over `m` mints has defined, no larger, sums over every prefix.
    pub proof fn lemma_price_sum_prefix(self, start: int, n: nat, m: nat)
        requires
            n <= m,
        ensures
            self.spec_price_sum(start, n) is None ==> self.spec_price_sum(start, m) is None,
            self.spec_price_sum(start, m) matches Some(s) ==> self.spec_price_sum(start, n) matches Some(
                t,
            ) && 0 <= t <= s,
        decreases m - n,
    {
        if n < m {
            self.lemma_price_sum_prefix(start, n, (m - 1) as nat);
        } else {
            self.lemma_price_sum_nonneg(start, n);
        }
    }

    /// The prices of consecutive mints add up: the sum over `m + n` mints is the sum
    /// over the first `m` plus the sum over the `n` after them, and is undefined where
    /// either is.
    pub proof fn lemma_price_sum_split(self, start: int, m: nat, n: nat)
        ensures
            self.spec_price_sum(start, m + n) == match (
                self.spec_price_sum(start, m),
                self.spec_price_sum(start + m, n),
            ) {
                (Some(u), Some(v)) => Some(u + v),
                _ => None::<int>,
            },
        decreases n,
    {
        if n > 0 {
            self.lemma_price_sum_split(start, m, (n - 1) as nat);
            assert(start + (m + n) - 1 == (start + m) + n - 1);
            assert((m + n - 1) as nat == m + (n - 1) as nat);
        }
    }

    proof fn lemma_price_sum_nonneg(self, start: int, n: nat)
        ensures
            self.spec_price_sum(start, n) matches Some(s) ==> s >= 0,
        decreases n,
    {
        if n > 0 {
            self.lemma_price_sum_nonneg(start, (n - 1) as nat);
        }
    }
}

/// Mint parameters of a relic.
#[derive(Clone, Copy, Debug, PartialEq, Eq, Structural)]
pub struct MintTerms {
    /// amount of quote tokens minted per mint
    pub amount: Option<u128>,
    /// maximum number of mints allowed in one block
    pub block_cap: Option<u32>,
    /// maximum number of mints allowed
    pub cap: Option<u128>,
    /// only if set, tokens can be unminted (until max_unmints reached)
    pub max_unmints: Option<u32>,
    /// price of a mint; must be set
    pub price: Option<PriceModel>,
    /// initial supply of quote tokens when the liquidity pool is created
    pub seed: Option<u128>,
    /// maximum number of mints allowed in one transaction
    pub tx_cap: Option<u8>,
}

impl Default for MintTerms {
    fn default() -> (terms: Self)
        ensures
            terms == (MintTerms {
                amount: None,
                block_cap: None,
                cap: None,
                max_unmints: None,
                price: None,
                seed: None,
                tx_cap: None,
            }),
    {
        MintTerms {
            amount: None,
            block_cap: None,
            cap: None,
            max_unmints: None,
            price: None,
            seed: None,
            tx_cap: None,
        }
    }
}

/// Chances (in ppm) and multiplier caps of boosted mints.
#[derive(Clone, Copy, Debug, PartialEq, Eq, Structural)]
pub struct BoostTerms {
    pub rare_chance: Option<u32>,
    pub rare_multiplier_cap: Option<u16>,
    pub ultra_rare_chance: Option<u32>,
    pub ultra_rare_multiplier_cap: Option<u16>,
}

impl Default for BoostTerms {
    fn default() -> (terms: Self)
        ensures
            terms == (BoostTerms {
                rare_chance: None,
                rare_multiplier_cap: None,
                ultra_rare_chance: None,
                ultra_rare_multiplier_cap: None,
            }),
    {
        BoostTerms {
            rare_chance: None,
            rare_multiplier_cap: None,
            ultra_rare_chance: None,
            ultra_rare_multiplier_cap: None,
        }
    }
}

/// The parameters with which a sealed relic is launched.
#[derive(Clone, Copy, Debug, PartialEq, Eq, Structural)]
pub struct Enshrining {
    /// potential mint boosts
    pub boost_terms: Option<BoostTerms>,
    /// trading fee in bps (10_000 = 100%)
    pub fee: Option<u16>,
    /// for free relics only, creator can sponsor base token lp
    pub subsidy: Option<u128>,
    /// symbol attached to this relic
    pub symbol: Option<char>,
    /// mint parameters
    pub mint_terms: Option<MintTerms>,
}

impl Default for Enshrining {
    fn default() -> (e: Self)
        ensures
            e == (Enshrining {
                boost_terms: None,
                fee: None,
                subsidy: None,
                symbol: None,
                mint_terms: None,
            }),
    {
        Enshrining { boost_terms: None, fee: None, subsidy: None, symbol: None, mint_terms: None }
    }
}

/// A mint (or unmint) of several units of a relic in one transaction.
#[derive(Clone, Copy, Debug, PartialEq, Eq, Structural)]
pub struct MultiMint {
    /// number of mints to perform
    pub count: u8,
    /// when minting, the most base token to spend; when unminting, the least to receive
    pub base_limit: u128,
    /// true for an unmint
    pub is_unmint: bool,
    /// the relic to mint or unmint
    pub relic: RelicId,
}

impl Default for MultiMint {
    fn default() -> (m: Self)
        ensures
            m == (MultiMint {
                count: 0,
                base_limit: 0,
                is_unmint: false,
                relic: RelicId { block: 0, tx: 0 },
            }),
    {
        MultiMint { count: 0, base_limit: 0, is_unmint: false, relic: RelicId::default() }
    }
}

impl BoostTerms {
    /// The rules that boost terms must meet, given the mint amount.
    pub open spec fn spec_validate(self, amount: Option<u128>) -> Result<(), RelicFlaw> {
        if self.rare_chance is None || self.rare_multiplier_cap is None {
            Err(RelicFlaw::InvalidEnshriningBoostInvalidRareBoost)
        } else if self.ultra_rare_chance is None || self.ultra_rare_multiplier_cap is None {
            Err(RelicFlaw::InvalidEnshriningBoostInvalidUltraRareBoost)
        } else {
            let rc = self.rare_chance.unwrap();
            let rm = self.rare_multiplier_cap.unwrap();
            let urc = self.ultra_rare_chance.unwrap();
            let urm = self.ultra_rare_multiplier_cap.unwrap();
            if rc > 999_999 {
                Err(RelicFlaw::InvalidEnshriningBoostInvalidRareChance)
            } else if urc > 999_999 {
                Err(RelicFlaw::InvalidEnshriningBoostInvalidUltraRareChance)
            } else if urc >= rc {
                Err(RelicFlaw::InvalidEnshriningBoostChanceOrder)
            } else if urm <= rm {
                Err(RelicFlaw::InvalidEnshriningBoostMultiplierOrder)
            } else if amount is Some && amount.unwrap() * rm > u128::MAX {
                Err(RelicFlaw::InvalidEnshriningBoostRareAmountOverflow)
            } else if amount is Some && amount.unwrap() * urm > u128::MAX {
                Err(RelicFlaw::InvalidEnshriningBoostUltraRareAmountOverflow)
            } else {
                Ok(())
            }
        }
    }

    fn validate(&self, amount: Option<u128>) -> (r: Result<(), RelicFlaw>)
        ensures
            r == self.spec_validate(amount),
    {
        let (rc, rm) = match self.rare_tuple() {
            Some(t) => t,
            None => return Err(RelicFlaw::InvalidEnshriningBoostInvalidRareBoost),
        };
        let (urc, urm) = match self.ultra_tuple() {
            Some(t) => t,
            None => return Err(RelicFlaw::InvalidEnshriningBoostInvalidUltraRareBoost),
        };
        if !(rc <= 999_999) {
            return Err(RelicFlaw::InvalidEnshriningBoostInvalidRareChance);
        }
        if !(urc <= 999_999) {
            return Err(RelicFlaw::InvalidEnshriningBoostInvalidUltraRareChance);
        }
        if !(urc < rc) {
            return Err(RelicFlaw::InvalidEnshriningBoostChanceOrder);
        }
        if !(urm > rm) {
            return Err(RelicFlaw::InvalidEnshriningBoostMultiplierOrder);
        }
        if let Some(a) = amount {
            if a.checked_mul(rm as u128).is_none() {
                return Err(RelicFlaw::InvalidEnshriningBoostRareAmountOverflow);
            }
            if a.checked_mul(urm as u128).is_none() {
                return Err(RelicFlaw::InvalidEnshriningBoostUltraRareAmountOverflow);
            }
        }
        Ok(())
    }

    /// The rare chance and multiplier cap, where both are set.
    fn rare_tuple(&self) -> (t: Option<(u32, u16)>)
        ensures
            t == (if self.rare_chance is Some && self.rare_multiplier_cap is Some {
                Some((self.rare_chance.unwrap(), self.rare_multiplier_cap.unwrap()))
            } else {
                None
            }),
    {
        match (self.rare_chance, self.rare_multiplier_cap) {
            (Some(c), Some(m)) => Some((c, m)),
            _ => None,
        }
    }

    /// The ultra rare chance and multiplier cap, where both are set.
    fn ultra_tuple(&self) -> (t: Option<(u32, u16)>)
        ensures
            t == (if self.ultra_rare_chance is Some && self.ultra_rare_multiplier_cap is Some {
                Some((self.ultra_rare_chance.unwrap(), self.ultra_rare_multiplier_cap.unwrap()))
            } else {
                None
            }),
    {
        match (self.ultra_rare_chance, self.ultra_rare_multiplier_cap) {
            (Some(c), Some(m)) => Some((c, m)),
            _ => None,
        }
    }
}

impl MintTerms {
    pub open spec fn spec_price(self, x: u128) -> Option<u128> {
        match self.price {
            Some(p) => p.spec_price(x),
            None => None,
        }
    }

    pub open spec fn spec_total_price(self, start: u128, count: u8) -> Option<u128> {
        match self.price {
            Some(p) => p.spec_total_price(start, count),
            None => None,
        }
    }

    /// The rules that mint terms must meet.
    pub open spec fn spec_validate(self) -> Result<(), RelicFlaw> {
        if self.cap is None || self.cap.unwrap() == 0 {
            Err(RelicFlaw::InvalidEnshriningTermsMissingOrZeroCap)
        } else {
            let cap = self.cap.unwrap();
            if self.amount is Some && cap * self.amount.unwrap() > u128::MAX {
                Err(RelicFlaw::InvalidEnshriningTermsAmountCapOverflow)
            } else {
                match self.price {
                    None => Err(RelicFlaw::InvalidEnshriningTermsMissingPrice),
                    Some(PriceModel::Fixed(p)) if cap * p > u128::MAX => Err(
                        RelicFlaw::InvalidEnshriningTermsFixedPriceCapOverflow,
                    ),
                    Some(PriceModel::Formula { a, b, c }) if !(c > 0 && b / c <= a && cap
                        <= 1_000_000) => Err(RelicFlaw::InvalidEnshriningTermsInvalidPriceFormula),
                    _ => {
                        if self.block_cap is Some && (cap < self.block_cap.unwrap() || (
                        self.tx_cap is Some && self.block_cap.unwrap() < self.tx_cap.unwrap())) {
                            Err(RelicFlaw::InvalidEnshriningTermsInvalidCapHierarchy)
                        } else {
                            Ok(())
                        }
                    },
                }
            }
        }
    }

    /// The price of the mint with index `x`.
    pub fn compute_price(&self, x: u128) -> (price: Option<u128>)
        ensures
            price == self.spec_price(x),
    {
        match self.price {
            Some(p) => p.compute_price(x),
            None => None,
        }
    }

    /// Computes the total price for `count` mints starting at mint index `start`.
    pub fn compute_total_price(&self, start: u128, count: u8) -> (total: Option<u128>)
        ensures
            total == self.spec_total_price(start, count),
    {
        match self.price {
            Some(p) => p.compute_total_price(start, count),
            None => None,
        }
    }

    fn validate(&self) -> (r: Result<(), RelicFlaw>)
        ensures
            r == self.spec_validate(),
    {
        let cap: u128 = match self.cap {
            Some(c) => c,
            None => return Err(RelicFlaw::InvalidEnshriningTermsMissingOrZeroCap),
        };
        if !(cap != 0) {
            return Err(RelicFlaw::InvalidEnshriningTermsMissingOrZeroCap);
        }
        if let Some(amount) = self.amount {
            if cap.checked_mul(amount).is_none() {
                return Err(RelicFlaw::InvalidEnshriningTermsAmountCapOverflow);
            }
        }
        match self.price {
            Some(PriceModel::Fixed(p)) => {
                if cap.checked_mul(p).is_none() {
                    return Err(RelicFlaw::InvalidEnshriningTermsFixedPriceCapOverflow);
                }
            },
            Some(PriceModel::Formula { a, b, c }) => {
                if !(c > 0 && (b / c) <= a && cap <= 1_000_000) {
                    return Err(RelicFlaw::InvalidEnshriningTermsInvalidPriceFormula);
                }
            },
            None => return Err(RelicFlaw::InvalidEnshriningTermsMissingPrice),
        }
        if let Some(block_cap) = self.block_cap {
            if !(cap >= block_cap as u128) {
                return Err(RelicFlaw::InvalidEnshriningTermsInvalidCapHierarchy);
            }
            if let Some(tx_cap) = self.tx_cap {
                if !(block_cap >= tx_cap as u32) {
                    return Err(RelicFlaw::InvalidEnshriningTermsInvalidCapHierarchy);
                }
            }
        }
        Ok(())
    }
}

impl Enshrining {
    /// All relics come with the same divisibility.
    pub const DIVISIBILITY: u8 = 8;

    pub const MAX_SPACERS: u32 = 0b00000111_11111111_11111111_11111111;

    /// The largest multiplier a boosted mint can reach.
    pub open spec fn spec_max_boost(self) -> u16 {
        match self.boost_terms {
            Some(b) => match b.ultra_rare_multiplier_cap {
                Some(u) => u,
                None => match b.rare_multiplier_cap {
                    Some(r) => r,
                    None => 1,
                },
            },
            None => 1,
        }
    }

    /// `seed + cap * amount * max_boost`, where every step fits in a `u128`.
    pub open spec fn spec_max_supply(self) -> Option<u128> {
        let amount: u128 = match self.mint_terms {
            Some(t) => match t.amount {
                Some(a) => a,
                None => 0,
            },
            None => 0,
        };
        let cap: u128 = match self.mint_terms {
            Some(t) => match t.cap {
                Some(c) => c,
                None => 0,
            },
            None => 0,
        };
        let seed: u128 = match self.mint_terms {
            Some(t) => match t.seed {
                Some(s) => s,
                None => 0,
            },
            None => 0,
        };
        let boost = self.spec_max_boost();
        if cap * amount > u128::MAX {
            None
        } else if cap * amount * boost > u128::MAX {
            None
        } else if seed + cap * amount * boost > u128::MAX {
            None
        } else {
            Some((seed + cap * amount * boost) as u128)
        }
    }

    /// The rules that an enshrining must meet.
    pub open spec fn spec_validate(self) -> Result<(), RelicFlaw> {
        match self.mint_terms {
            None => Err(RelicFlaw::InvalidEnshriningTermsMissingOrZeroCap),
            Some(terms) => {
                if terms.spec_validate() is Err {
                    terms.spec_validate()
                } else if self.boost_terms is Some && self.boost_terms.unwrap().spec_validate(
                    terms.amount,
                ) is Err {
                    self.boost_terms.unwrap().spec_validate(terms.amount)
                } else if self.boost_terms is Some && terms.max_unmints is Some {
                    Err(RelicFlaw::InvalidEnshriningBoostNotUnmintable)
                } else if self.spec_max_supply() is None {
                    Err(RelicFlaw::InvalidEnshriningMaxSupplyCalculation)
                } else {
                    match (self.subsidy, terms.price) {
                        (Some(s), Some(PriceModel::Fixed(p))) => if s > 0 && p == 0 {
                            Ok(())
                        } else {
                            Err(RelicFlaw::InvalidEnshriningSubsidyRules)
                        },
                        (Some(_), _) => Err(RelicFlaw::InvalidEnshriningSubsidyRules),
                        (None, Some(PriceModel::Fixed(p))) if p == 0 => Err(
                            RelicFlaw::InvalidEnshriningSubsidyRules,
                        ),
                        _ => Ok(()),
                    }
                }
            },
        }
    }

    /// The most units of this relic that can ever exist: every mint boosted to the
    /// highest multiplier, plus the pool seed.
    pub fn max_supply(&self) -> (supply: Option<u128>)
        ensures
            supply == self.spec_max_supply(),
    {
        let amount: u128 = match self.mint_terms {
            Some(t) => match t.amount {
                Some(a) => a,
                None => 0,
            },
            None => 0,
        };
        let cap: u128 = match self.mint_terms {
            Some(t) => match t.cap {
                Some(c) => c,
                None => 0,
            },
            None => 0,
        };
        let seed: u128 = match self.mint_terms {
            Some(t) => match t.seed {
                Some(s) => s,
                None => 0,
            },
            None => 0,
        };
        let max_boost: u16 = match self.boost_terms {
            Some(b) => match b.ultra_rare_multiplier_cap {
                Some(u) => u,
                None => match b.rare_multiplier_cap {
                    Some(r) => r,
                    None => 1,
                },
            },
            None => 1,
        };
        let minted: u128 = match cap.checked_mul(amount) {
            Some(m) => m,
            None => return None,
        };
        let boosted: u128 = match minted.checked_mul(max_boost as u128) {
            Some(b) => b,
            None => return None,
        };
        seed.checked_add(boosted)
    }

    /// Checks the mint terms, the boost terms and the subsidy rules.
    pub fn validate(&self) -> (r: Result<(), RelicFlaw>)
        ensures
            r == self.spec_validate(),
    {
        let terms = match self.mint_terms {
            Some(t) => t,
            None => return Err(RelicFlaw::InvalidEnshriningTermsMissingOrZeroCap),
        };
        match terms.validate() {
            Ok(()) => {},
            Err(e) => return Err(e),
        }
        if let Some(bt) = self.boost_terms {
            match bt.validate(terms.amount) {
                Ok(()) => {},
                Err(e) => return Err(e),
            }
            if terms.max_unmints.is_some() {
                return Err(RelicFlaw::InvalidEnshriningBoostNotUnmintable);
            }
        }
        if self.max_supply().is_none() {
            return Err(RelicFlaw::InvalidEnshriningMaxSupplyCalculation);
        }
        match (self.subsidy, terms.price) {
            (Some(s), Some(PriceModel::Fixed(p))) => {
                if !(s > 0 && p == 0) {
                    return Err(RelicFlaw::InvalidEnshriningSubsidyRules);
                }
            },
            (Some(_), _) => return Err(RelicFlaw::InvalidEnshriningSubsidyRules),
            (None, Some(PriceModel::Fixed(p))) => {
                if p == 0 {
                    return Err(RelicFlaw::InvalidEnshriningSubsidyRules);
                }
            },
            _ => {},
        }
        Ok(())
    }
}

/// Total prices add up over consecutive runs of mints: where the total of `m` mints
/// from `s` and the total of the `n` mints after them are defined and their sum fits,
/// the total of the `m + n` mints from `s` is that sum; and no mints cost nothing.
pub proof fn lemma_total_price_split(model: PriceModel, s: u128, m: u8, n: u8)
    requires
        m + n <= u8::MAX,
        s + m <= u128::MAX,
        model.spec_total_price(s, m) is Some,
        model.spec_total_price((s + m) as u128, n) is Some,
        model.spec_total_price(s, m).unwrap() + model.spec_total_price((s + m) as u128, n).unwrap()
            <= u128::MAX,
    ensures
        model.spec_total_price(s, (m + n) as u8) == Some(
            (model.spec_total_price(s, m).unwrap() + model.spec_total_price((s + m) as u128, n).unwrap()) as u128,
        ),
        model.spec_total_price(s, 0) == Some(0u128),
{
    match model {
        PriceModel::Fixed(p) => {
            assert(((m + n) as u8) as int == m + n);
            assert(p * m + p * n == p * (m + n)) by (nonlinear_arith);
            assert(p * 0 == 0) by (nonlinear_arith);
        },
        PriceModel::Formula { .. } => {
            model.lemma_price_sum_split(s as int, m as nat, n as nat);
            assert(((m + n) as u8) as nat == m as nat + n as nat);
            assert(((s + m) as u128) as int == s as int + m as nat);
            model.lemma_price_sum_nonneg(s as int, m as nat);
            model.lemma_price_sum_nonneg(s as int + m as nat, n as nat);
        },
    }
}

} // verus!
