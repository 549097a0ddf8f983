use crate::balance::{alloc_sum, destinations, BalanceView, RelicsBalance};
use crate::enshrining::{saturating_sub, BoostTerms, Enshrining, MintTerms, PriceModel};
use crate::entry::{or_zero, sat_sum, spec_swap_outcome, spec_unmint_prices, RelicEntry, RelicState};
use crate::error::RelicError;
use crate::keepsake::RelicArtifact;
use crate::ledger::amount;
use crate::pool::{BalanceDiff, Pool, PoolError, PoolSwap, SwapDirection};
use crate::swap::Swap;
use crate::relic_id::{spec_relic_id, RelicId};
use crate::spaced_relic::SpacedRelic;
use crate::transaction::{spec_is_op_return, Transaction};
use crate::txid::Txid;
use bitcoin::hashes::Hash as BitcoinHash;
use std::hash::{BuildHasher, BuildHasherDefault, DefaultHasher};
use vstd::prelude::*;

verus! {

/// Hashes the relic's block, the minting transaction (as the `bitcoin::Txid` of its
/// bytes) and the mint index with std's `DefaultHasher`, through
/// `BuildHasher::hash_one` on the triple (which hashes its parts in order, as
/// `new`, `hash` of each part and `finish` do). Nothing is claimed of the result:
/// std does not promise the hasher's algorithm across releases.
#[verifier::external_body]
fn mint_seed(block: u64, txid: Txid, mint_index: u128) -> u64 {
    let mut bytes = [0u8; 32];
    bytes[..16].copy_from_slice(&txid.low.to_le_bytes());
    bytes[16..].copy_from_slice(&txid.high.to_le_bytes());
    let txid = bitcoin::Txid::from_byte_array(bytes);
    BuildHasherDefault::<DefaultHasher>::default().hash_one((block, txid, mint_index))
}

/// The boost terms can be applied without an empty range: a rare multiplier cap of
/// at least one where rare boosts can happen, and an ultra rare cap no below the
/// rare cap where ultra rare boosts can happen.
pub open spec fn boost_applicable(b: BoostTerms) -> bool {
    &&& (b.rare_chance is Some && b.rare_multiplier_cap is Some && b.rare_chance.unwrap() > 0)
        ==> b.rare_multiplier_cap.unwrap() >= 1
    &&& (b.ultra_rare_chance is Some && b.ultra_rare_multiplier_cap is Some
        && b.rare_multiplier_cap is Some && b.ultra_rare_chance.unwrap() > 0)
        ==> b.ultra_rare_multiplier_cap.unwrap() >= b.rare_multiplier_cap.unwrap()
}

/// The multiplier of a boosted mint for a random value below one million: below the
/// ultra rare chance, between the rare and the ultra rare cap; failing that, below the
/// rare chance, between 1 and the rare cap; else 1.
pub open spec fn spec_boost_multiplier(rand_val: u32, b: BoostTerms) -> u32 {
    let ultra: u32 = if b.ultra_rare_chance is Some && b.ultra_rare_multiplier_cap is Some
        && rand_val < b.ultra_rare_chance.unwrap() && b.rare_multiplier_cap is Some {
        let min = b.rare_multiplier_cap.unwrap() as u32;
        let max = b.ultra_rare_multiplier_cap.unwrap() as u32;
        (min + rand_val % ((max - min + 1) as u32)) as u32
    } else {
        1
    };
    if ultra == 1 && b.rare_chance is Some && b.rare_multiplier_cap is Some && rand_val
        < b.rare_chance.unwrap() {
        let max = b.rare_multiplier_cap.unwrap() as u32;
        (1 + rand_val % max) as u32
    } else {
        ultra
    }
}

/// The multiplier of a boosted mint for a random value.
pub fn boost_multiplier(rand_val: u32, boost: &BoostTerms) -> (m: u32)
    requires
        boost_applicable(*boost),
    ensures
        m == spec_boost_multiplier(rand_val, *boost),
{
    let mut multiplier: u32 = 1;
    if let (Some(ur_chance), Some(ur_multiplier_cap)) = (
        boost.ultra_rare_chance,
        boost.ultra_rare_multiplier_cap,
    ) {
        if rand_val < ur_chance {
            if let Some(r_multiplier_cap) = boost.rare_multiplier_cap {
                let min = r_multiplier_cap as u32;
                let max = ur_multiplier_cap as u32;
                let range = max - min + 1;
                multiplier = min + (rand_val % range);
            }
        }
    }
    if multiplier == 1 {
        if let (Some(r_chance), Some(r_multiplier_cap)) = (
            boost.rare_chance,
            boost.rare_multiplier_cap,
        ) {
            if rand_val < r_chance {
                let max = r_multiplier_cap as u32;
                let range = max - 1 + 1;
                multiplier = 1 + (rand_val % range);
            }
        }
    }
    multiplier
}

/// The multiplier that a hashed seed gives: the boost's multiplier for the seed's
/// remainder modulo one million.
pub open spec fn spec_multiplier_for_seed(seed: u64, b: BoostTerms) -> u32 {
    spec_boost_multiplier((seed % 1_000_000) as u32, b)
}

/// The boost multiplier for a hashed seed.
pub fn multiplier_for_seed(seed: u64, boost: &BoostTerms) -> (m: u32)
    requires
        boost_applicable(*boost),
    ensures
        m == spec_multiplier_for_seed(seed, *boost),
{
    let rand_val: u32 = (seed % 1_000_000) as u32;
    boost_multiplier(rand_val, boost)
}

/// The boost multiplier of the `mint_index`-th mint of a relic in a transaction: the
/// multiplier for the seed hashed from the relic's block, the transaction and the
/// index. The hash is std's `DefaultHasher`, whose output std does not fix across
/// releases, so the contract holds for whatever seed it gives.
pub fn compute_boost_multiplier(relic_id: &RelicId, txid: &Txid, mint_index: u128, boost: &BoostTerms) -> (m: u32)
    requires
        boost_applicable(*boost),
    ensures
        exists|seed: u64| m == #[trigger] spec_multiplier_for_seed(seed, *boost),
{
    let seed = mint_seed(relic_id.block, *txid, mint_index);
    multiplier_for_seed(seed, boost)
}

/// `a + b`, or `u32::MAX` where it overflows.
pub open spec fn sat_add32(a: u32, b: u32) -> u32 {
    if a + b > u32::MAX {
        u32::MAX
    } else {
        (a + b) as u32
    }
}

/// How many of the mints that `mintable` allows the block cap leaves room for.
pub open spec fn spec_mint_count(terms: MintTerms, potential: nat, block_mints: u32) -> nat {
    match terms.block_cap {
        Some(bc) => {
            let room = saturating_sub(bc as u128, block_mints as u128);
            if room < potential {
                room as nat
            } else {
                potential
            }
        },
        None => potential,
    }
}

/// The entry after `n` more mints: the mint count grows, and where the mints reach
/// the cap, the pool is created from the locked base token and the seed, both
/// non-zero, with the fee capped at 1000 bps.
pub open spec fn spec_after_mint(e: RelicEntry, n: nat) -> RelicEntry {
    let minted = RelicEntry {
        state: RelicState {
            burned: e.state.burned,
            mints: (e.state.mints + n) as u128,
            unmints: e.state.unmints,
        },
        ..e
    };
    match e.mint_terms {
        Some(terms) => {
            if e.state.mints + n == or_zero(terms.cap) {
                let base = minted.spec_locked_base_supply();
                let quote = or_zero(terms.seed);
                if base > 0 && quote > 0 {
                    RelicEntry {
                        pool: Some(
                            Pool {
                                base_supply: base as u128,
                                quote_supply: quote,
                                fee_bps: if e.fee < 1000 {
                                    e.fee
                                } else {
                                    1000
                                },
                                subsidy: 0,
                            },
                        ),
                        ..minted
                    }
                } else {
                    minted
                }
            } else {
                minted
            }
        },
        None => minted,
    }
}

/// A mint that reaches the cap may create the pool: a pool that exists then must
/// be the subsidy pool of the enshrining (subsidy, no supplies, the same fee), and the
/// base token locked by all mints must fit in a `u128`.
pub open spec fn pool_creation_ok(e: RelicEntry, n: nat) -> bool {
    match e.mint_terms {
        Some(terms) => e.state.mints + n == or_zero(terms.cap) ==> {
            let minted = RelicEntry {
                state: RelicState {
                    burned: e.state.burned,
                    mints: (e.state.mints + n) as u128,
                    unmints: e.state.unmints,
                },
                ..e
            };
            &&& minted.spec_locked_base_supply() <= u128::MAX
            &&& (e.pool matches Some(p) ==> p.subsidy > 0 && p.base_supply == 0 && p.quote_supply
                == 0 && p.fee_bps == (if e.fee < 1000 {
                e.fee
            } else {
                1000
            }))
        },
        None => true,
    }
}

/// The pool that an enshrining with a subsidy starts with: only the subsidy, and the
/// enshrining's fee capped at 1000 bps.
pub open spec fn spec_subsidy_pool(enshrining: Enshrining) -> Option<Pool> {
    if or_zero(enshrining.subsidy) > 0 {
        Some(
            Pool {
                base_supply: 0,
                quote_supply: 0,
                fee_bps: if enshrining.fee is Some && enshrining.fee.unwrap() < 1000 {
                    enshrining.fee.unwrap()
                } else if enshrining.fee is Some {
                    1000
                } else {
                    0
                },
                subsidy: or_zero(enshrining.subsidy),
            },
        )
    } else {
        None
    }
}

/// No pool fee above 1000 bps comes from minting out or from enshrining. The pool
/// that the mints create when they reach the cap charges the relic's fee where that
/// is at most 1000 bps and 1000 bps otherwise, carries no subsidy, and holds the
/// seed; the subsidy pool of an enshrining charges its fee under
/// the same cap, so a relic's pool keeps its fee when it is minted out.
pub proof fn lemma_pool_fee_capped(e: RelicEntry, n: nat, enshrining: Enshrining)
    ensures
        spec_after_mint(e, n).pool is Some && spec_after_mint(e, n).pool != e.pool ==> {
            let p = spec_after_mint(e, n).pool.unwrap();
            &&& p.fee_bps <= 1000
            &&& e.fee <= 1000 ==> p.fee_bps == e.fee
            &&& e.fee >= 1000 ==> p.fee_bps == 1000
            &&& p.subsidy == 0
            &&& e.mint_terms is Some
            &&& p.quote_supply == or_zero(e.mint_terms.unwrap().seed)
            &&& e.state.mints + n == or_zero(e.mint_terms.unwrap().cap)
        },
        spec_subsidy_pool(enshrining) is Some ==> {
            let q = spec_subsidy_pool(enshrining).unwrap();
            &&& q.fee_bps <= 1000
            &&& enshrining.fee is Some && enshrining.fee.unwrap() <= 1000 ==> q.fee_bps
                == enshrining.fee.unwrap()
            &&& enshrining.fee is Some && enshrining.fee.unwrap() >= 1000 ==> q.fee_bps == 1000
        },
        spec_after_mint(e, n).pool is Some && spec_after_mint(e, n).pool != e.pool
            && spec_subsidy_pool(enshrining) is Some && enshrining.fee == Some(e.fee)
            ==> spec_after_mint(e, n).pool.unwrap().fee_bps == spec_subsidy_pool(
            enshrining,
        ).unwrap().fee_bps,
{
}

/// A mint as performed matches the mint that `mintable` allowed: the same price, a
/// multiplier of 1 without boost terms, else one that the boost gives for some hashed
/// seed, and the amount times the multiplier (the amount where that overflows).
pub open spec fn mint_matches(boost: Option<BoostTerms>, allowed: (u128, u128), done: (u128, u128, u32)) -> bool {
    &&& done.1 == allowed.1
    &&& boost is None ==> done.2 == 1
    &&& boost matches Some(b) ==> exists|seed: u64| done.2 == #[trigger] spec_multiplier_for_seed(seed, b)
    &&& done.0 == if allowed.0 * done.2 <= u128::MAX {
        (allowed.0 * done.2) as u128
    } else {
        allowed.0
    }
}

/// What a mint of a relic gives: the entry after it, each mint as its amount (times
/// the boost multiplier), its price and the multiplier, and the relic's mints in the
/// block afterwards.
pub struct MintResult {
    pub entry: RelicEntry,
    pub mints: Vec<(u128, u128, u32)>,
    pub block_mints: u32,
}

/// The sum of the prices of the first `k` mints.
pub open spec fn price_prefix(pot: Seq<(u128, u128)>, k: nat) -> int
    decreases k,
{
    if k == 0 {
        0
    } else {
        price_prefix(pot, (k - 1) as nat) + pot[k - 1].1
    }
}

proof fn lemma_price_prefix_bound(e: RelicEntry, base_balance: u128, requested: u8, base_limit: u128, k: nat)
    requires
        e.spec_mintable(base_balance, requested, base_limit) is Ok,
        k <= e.spec_mintable(base_balance, requested, base_limit)->Ok_0.len(),
    ensures
        0 <= price_prefix(e.spec_mintable(base_balance, requested, base_limit)->Ok_0, k)
            <= base_balance,
        price_prefix(e.spec_mintable(base_balance, requested, base_limit)->Ok_0, k) <= base_limit,
{
    let terms = e.mint_terms.unwrap();
    let pot = e.spec_mintable(base_balance, requested, base_limit)->Ok_0;
    let actual = e.spec_actual_mints(terms, requested);
    let start = e.state.mints;
    let total = terms.spec_total_price(start, actual).unwrap();
    match terms.price {
        Some(PriceModel::Fixed(p)) => {
            lemma_fixed_prefix(pot, p, k);
            assert(p * k <= p * actual) by (nonlinear_arith)
                requires
                    k <= actual,
            ;
        },
        Some(model) => {
            lemma_formula_prefix(e, base_balance, requested, base_limit, model, k);
            model.lemma_price_sum_prefix(start as int, k, actual as nat);
        },
        None => {},
    }
}

proof fn lemma_fixed_prefix(pot: Seq<(u128, u128)>, p: u128, k: nat)
    requires
        k <= pot.len(),
        forall|i: int| 0 <= i < pot.len() ==> #[trigger] pot[i].1 == p,
    ensures
        price_prefix(pot, k) == p * k,
    decreases k,
{
    if k > 0 {
        lemma_fixed_prefix(pot, p, (k - 1) as nat);
        assert(pot[k - 1].1 == p);
        assert(p * (k - 1) + p == p * k) by (nonlinear_arith);
    } else {
        assert(p * 0 == 0) by (nonlinear_arith);
    }
}

proof fn lemma_formula_prefix(
    e: RelicEntry,
    base_balance: u128,
    requested: u8,
    base_limit: u128,
    model: PriceModel,
    k: nat,
)
    requires
        e.spec_mintable(base_balance, requested, base_limit) is Ok,
        e.mint_terms.unwrap().price == Some(model),
        model is Formula,
        k <= e.spec_mintable(base_balance, requested, base_limit)->Ok_0.len(),
    ensures
        model.spec_price_sum(e.state.mints as int, k) == Some(
            price_prefix(e.spec_mintable(base_balance, requested, base_limit)->Ok_0, k),
        ),
    decreases k,
{
    let terms = e.mint_terms.unwrap();
    let pot = e.spec_mintable(base_balance, requested, base_limit)->Ok_0;
    let actual = e.spec_actual_mints(terms, requested);
    if k > 0 {
        lemma_formula_prefix(e, base_balance, requested, base_limit, model, (k - 1) as nat);
        model.lemma_price_sum_prefix(e.state.mints as int, k, actual as nat);
        let x = e.state.mints + k - 1;
        assert(model.spec_price_at(x) is Some);
        assert(pot[k - 1].1 == terms.spec_price(x as u128).unwrap());
    }
}

/// A mint spends no more base token than its limit, nor than the balance: the
/// prices of the mints that `mint` makes (those `mintable` allows, up to the block
/// cap) add up to at most both.
pub proof fn lemma_mint_within_limit(
    e: RelicEntry,
    base_balance: u128,
    requested: u8,
    base_limit: u128,
    block_mints: u32,
)
    requires
        e.spec_mintable(base_balance, requested, base_limit) is Ok,
    ensures
        ({
            let pot = e.spec_mintable(base_balance, requested, base_limit)->Ok_0;
            let n = spec_mint_count(e.mint_terms.unwrap(), pot.len(), block_mints);
            &&& n <= pot.len()
            &&& price_prefix(pot, n) <= base_limit
            &&& price_prefix(pot, n) <= base_balance
        }),
{
    let pot = e.spec_mintable(base_balance, requested, base_limit)->Ok_0;
    let n = spec_mint_count(e.mint_terms.unwrap(), pot.len(), block_mints);
    assert(n <= pot.len());
    lemma_price_prefix_bound(e, base_balance, requested, base_limit, n);
}

/// Mints `requested_mints` of a relic (not the base token) for the given base
/// token balance and limit; `block_mints` is how often the relic was minted in this
/// block so far. Mints beyond the block cap are dropped; a boosted relic multiplies
/// each mint's amount (where the product fits).
pub fn mint(
    entry: Option<RelicEntry>,
    id: RelicId,
    txid: Txid,
    base_balance: u128,
    requested_mints: u8,
    base_limit: u128,
    block_mints: u32,
) -> (r: Result<MintResult, RelicError>)
    requires
        id != spec_relic_id(),
        entry matches Some(e) ==> (e.boost_terms matches Some(b) ==> boost_applicable(b)),
        entry matches Some(e) ==> (e.spec_mintable(base_balance, requested_mints, base_limit) matches Ok(
            pot,
        ) ==> pool_creation_ok(e, spec_mint_count(e.mint_terms.unwrap(), pot.len(), block_mints))),
    ensures
        entry is None ==> r == Err::<MintResult, RelicError>(RelicError::RelicNotFound(id)),
        entry matches Some(e) ==> match e.spec_mintable(base_balance, requested_mints, base_limit) {
            Err(cause) => r == Err::<MintResult, RelicError>(cause),
            Ok(pot) => {
                let terms = e.mint_terms.unwrap();
                let n = spec_mint_count(terms, pot.len(), block_mints);
                if pot.len() > 0 && terms.block_cap is Some && saturating_sub(
                    terms.block_cap.unwrap() as u128,
                    block_mints as u128,
                ) == 0 {
                    r == Err::<MintResult, RelicError>(
                        RelicError::MintBlockCapExceeded(terms.block_cap.unwrap()),
                    )
                } else if pot.len() == 0 {
                    r matches Ok(res) && res.entry == e && res.mints@.len() == 0 && res.block_mints
                        == block_mints
                } else {
                    r matches Ok(res) && res.entry == spec_after_mint(e, n) && res.block_mints == (
                    if terms.block_cap is Some {
                        sat_add32(block_mints, n as u32)
                    } else {
                        block_mints
                    }) && res.mints@.len() == n && forall|i: int|
                        0 <= i < n ==> mint_matches(e.boost_terms, pot[i], #[trigger] res.mints@[i])
                }
            },
        },
{
    let mut relic_entry = match entry {
        Some(e) => e,
        None => return Err(RelicError::RelicNotFound(id)),
    };
    let ghost e = relic_entry;
    let potential = match relic_entry.mintable(base_balance, requested_mints, base_limit) {
        Ok(results) => results,
        Err(cause) => return Err(cause),
    };
    let terms = match relic_entry.mint_terms {
        Some(t) => t,
        None => return Err(RelicError::Unmintable),
    };
    if potential.len() == 0 {
        return Ok(MintResult { entry: relic_entry, mints: Vec::new(), block_mints });
    }
    let mut count: usize = potential.len();
    if let Some(block_cap) = terms.block_cap {
        let remaining = block_cap.saturating_sub(block_mints);
        if remaining == 0 {
            return Err(RelicError::MintBlockCapExceeded(block_cap));
        }
        if (remaining as usize) < count {
            count = remaining as usize;
        }
    }
    proof {
        assert(count == spec_mint_count(terms, potential@.len(), block_mints));
        assert(potential@.len() <= 255);
    }
    let current = relic_entry.state.mints;
    let mut results: Vec<(u128, u128, u32)> = Vec::new();
    let mut total_price: u128 = 0;
    let mut i: usize = 0;
    while i < count
        invariant
            i <= count,
            count <= potential@.len(),
            potential@.len() <= 255,
            e.spec_mintable(base_balance, requested_mints, base_limit) == Ok::<
                Seq<(u128, u128)>,
                RelicError,
            >(potential@),
            current == e.state.mints,
            relic_entry == e,
            e.boost_terms matches Some(b) ==> boost_applicable(b),
            results@.len() == i,
            total_price == price_prefix(potential@, i as nat),
            forall|k: int|
                0 <= k < i ==> mint_matches(e.boost_terms, potential@[k], #[trigger] results@[k]),
        decreases count - i,
    {
        let (base_amount, price) = potential[i];
        let mut final_amount = base_amount;
        let mut multiplier: u32 = 1;
        if let Some(boost) = relic_entry.boost_terms {
            let mint_index: u128 = current + i as u128;
            multiplier = compute_boost_multiplier(&id, &txid, mint_index, &boost);
            final_amount = match base_amount.checked_mul(multiplier as u128) {
                Some(a) => a,
                None => base_amount,
            };
        }
        proof {
            lemma_price_prefix_bound(e, base_balance, requested_mints, base_limit, (i + 1) as nat);
        }
        results.push((final_amount, price, multiplier));
        total_price = match total_price.checked_add(price) {
            Some(t) => t,
            None => return Err(RelicError::Unmintable),
        };
        proof {
            if e.boost_terms is None {
                assert(multiplier == 1);
                assert(base_amount * 1 == base_amount);
            }
            assert(mint_matches(e.boost_terms, potential@[i as int], results@[i as int]));
            assert forall|k: int| 0 <= k < i + 1 implies mint_matches(
                e.boost_terms,
                potential@[k],
                #[trigger] results@[k],
            ) by {}
        }
        i = i + 1;
    }
    proof {
        lemma_price_prefix_bound(e, base_balance, requested_mints, base_limit, count as nat);
    }
    if base_balance < total_price {
        return Err(RelicError::MintInsufficientBalance(total_price));
    }
    let mut new_block_mints = block_mints;
    if terms.block_cap.is_some() {
        new_block_mints = block_mints.saturating_add(count as u32);
    }
    relic_entry.state.mints = current + count as u128;
    if relic_entry.state.mints == (match terms.cap {
        Some(c) => c,
        None => 0,
    }) {
        let base_supply = relic_entry.locked_base_supply();
        let quote_supply: u128 = match terms.seed {
            Some(s) => s,
            None => 0,
        };
        let fee_bps: u16 = if relic_entry.fee < 1000 {
            relic_entry.fee
        } else {
            1000
        };
        if base_supply > 0 && quote_supply > 0 {
            relic_entry.pool = Some(
                Pool { base_supply, quote_supply, fee_bps, subsidy: 0 },
            );
        }
    }
    proof {
        let n = spec_mint_count(terms, potential@.len(), block_mints);
        assert(e.mint_terms == Some(terms));
        assert(count == n);
        assert(relic_entry == spec_after_mint(e, n));
        assert(new_block_mints == (if terms.block_cap is Some {
            sat_add32(block_mints, n as u32)
        } else {
            block_mints
        }));
        assert(results@.len() == n);
        let res = MintResult { entry: relic_entry, mints: results, block_mints: new_block_mints };
        assert(res.mints@ == results@);
    }
    Ok(MintResult { entry: relic_entry, mints: results, block_mints: new_block_mints })
}

proof fn lemma_unmint_prices_reverse(
    e: RelicEntry,
    base_balance: u128,
    requested: u8,
    base_limit: u128,
    n: nat,
    k: nat,
)
    requires
        e.spec_mintable(base_balance, requested, base_limit) is Ok,
        n <= e.spec_mintable(base_balance, requested, base_limit)->Ok_0.len(),
        e.state.mints + n <= u128::MAX,
        k <= n,
    ensures
        spec_unmint_prices(e.mint_terms.unwrap(), (e.state.mints + n) as u128, k) == Some(
            Seq::new(
                k,
                |i: int| e.spec_mintable(base_balance, requested, base_limit)->Ok_0[n - 1 - i].1,
            ),
        ),
    decreases k,
{
    let pot = e.spec_mintable(base_balance, requested, base_limit)->Ok_0;
    let terms = e.mint_terms.unwrap();
    let m = (e.state.mints + n) as u128;
    if k == 0 {
        assert(Seq::new(0, |i: int| pot[n - 1 - i].1) =~= Seq::<u128>::empty());
    } else {
        lemma_unmint_prices_reverse(e, base_balance, requested, base_limit, n, (k - 1) as nat);
        let actual = e.spec_actual_mints(terms, requested);
        let j = n - k;
        crate::entry::lemma_total_price_defines_prices(terms, e.state.mints, actual, j);
        assert((m - k) as u128 == (e.state.mints + j) as u128);
        assert(pot[j].1 == terms.spec_price((e.state.mints + j) as u128).unwrap());
        assert(Seq::new((k - 1) as nat, |i: int| pot[n - 1 - i].1).push(pot[j].1) =~= Seq::new(
            k,
            |i: int| pot[n - 1 - i].1,
        ));
    }
}

/// Unminting refunds what minting paid: after a mint that leaves the cap unreached,
/// the entry holds the mints that were made, and the prices of its last mints, latest
/// first, are the prices those mints paid, in reverse order.
pub proof fn lemma_unmint_refunds_mint(
    e: RelicEntry,
    base_balance: u128,
    requested: u8,
    base_limit: u128,
    block_mints: u32,
)
    requires
        e.spec_mintable(base_balance, requested, base_limit) is Ok,
        e.state.mints + spec_mint_count(
            e.mint_terms.unwrap(),
            e.spec_mintable(base_balance, requested, base_limit)->Ok_0.len(),
            block_mints,
        ) < or_zero(e.mint_terms.unwrap().cap),
    ensures
        ({
            let pot = e.spec_mintable(base_balance, requested, base_limit)->Ok_0;
            let terms = e.mint_terms.unwrap();
            let n = spec_mint_count(terms, pot.len(), block_mints);
            let after = spec_after_mint(e, n);
            &&& after == (RelicEntry {
                state: RelicState { mints: (e.state.mints + n) as u128, ..e.state },
                ..e
            })
            &&& spec_unmint_prices(terms, after.state.mints, n) == Some(
                Seq::new(n, |i: int| pot[n - 1 - i].1),
            )
        }),
{
    let pot = e.spec_mintable(base_balance, requested, base_limit)->Ok_0;
    let terms = e.mint_terms.unwrap();
    let n = spec_mint_count(terms, pot.len(), block_mints);
    assert(n <= pot.len());
    lemma_unmint_prices_reverse(e, base_balance, requested, base_limit, n, n);
}

/// A saturating sum of `n` copies of `a` is at most `n * a`.
proof fn lemma_sat_sum_copies(a: u128, n: nat)
    ensures
        sat_sum(Seq::new(n, |i: int| a)) <= n * a,
    decreases n,
{
    if n > 0 {
        lemma_sat_sum_copies(a, (n - 1) as nat);
        assert(Seq::new(n, |i: int| a).drop_last() =~= Seq::new((n - 1) as nat, |i: int| a));
        assert((n - 1) * a + a == n * a) by (nonlinear_arith);
    }
}

/// An unmint right after mints gives them back: where the entry allows unmints and
/// the mints leave the cap unreached, unminting as many as were minted (with no
/// minimum refund) from a balance that holds what they minted returns each mint's
/// amount and price, latest first.
pub proof fn lemma_unmintable_reverses_mintable(
    e: RelicEntry,
    base_balance: u128,
    requested: u8,
    base_limit: u128,
    balance: u128,
)
    requires
        e.spec_mintable(base_balance, requested, base_limit) is Ok,
        e.mint_terms.unwrap().max_unmints is Some,
        !e.spec_is_free(),
        e.state.unmints + e.spec_mintable(base_balance, requested, base_limit)->Ok_0.len()
            <= e.mint_terms.unwrap().max_unmints.unwrap(),
        e.state.mints + e.spec_mintable(base_balance, requested, base_limit)->Ok_0.len() != or_zero(
            e.mint_terms.unwrap().cap,
        ),
        balance >= e.spec_mintable(base_balance, requested, base_limit)->Ok_0.len() * or_zero(
            e.mint_terms.unwrap().amount,
        ),
    ensures
        ({
            let minted = e.spec_mintable(base_balance, requested, base_limit)->Ok_0;
            let n = minted.len();
            let after = RelicEntry {
                state: RelicState { mints: (e.state.mints + n) as u128, ..e.state },
                ..e
            };
            after.spec_unmintable(balance, n as u8, 0) == Ok::<Seq<(u128, u128)>, RelicError>(
                Seq::new(n, |i: int| minted[n - 1 - i]),
            )
        }),
{
    let minted = e.spec_mintable(base_balance, requested, base_limit)->Ok_0;
    let terms = e.mint_terms.unwrap();
    let n = minted.len();
    let actual = e.spec_actual_mints(terms, requested);
    assert(n == actual);
    assert(e.state.mints + n <= or_zero(terms.cap));
    let after = RelicEntry { state: RelicState { mints: (e.state.mints + n) as u128, ..e.state }, ..e };
    lemma_unmint_prices_reverse(e, base_balance, requested, base_limit, n, n);
    let prices = Seq::new(n, |i: int| minted[n - 1 - i].1);
    assert(spec_unmint_prices(terms, after.state.mints, n) == Some(prices));
    lemma_sat_sum_copies(or_zero(terms.amount), n);
    let got = Seq::new(n, |j: int| (or_zero(terms.amount), prices[j]));
    let want = Seq::new(n, |j: int| minted[n - 1 - j]);
    assert forall|i: int| 0 <= i < n implies #[trigger] got[i] == want[i] by {
        assert(minted[n - 1 - i].0 == or_zero(terms.amount));
    }
    assert(got =~= want);
}

/// Unmints `count` of a relic (not the base token): the entry after it, and the
/// unmints as `unmintable` gives them.
pub fn unmint(entry: Option<RelicEntry>, id: RelicId, balance: u128, count: u8, base_min: u128) -> (r:
    Result<(RelicEntry, Vec<(u128, u128)>), RelicError>)
    requires
        id != spec_relic_id(),
    ensures
        entry is None ==> r == Err::<(RelicEntry, Vec<(u128, u128)>), RelicError>(
            RelicError::RelicNotFound(id),
        ),
        entry matches Some(e) ==> match e.spec_unmintable(balance, count, base_min) {
            Err(cause) => r == Err::<(RelicEntry, Vec<(u128, u128)>), RelicError>(cause),
            Ok(results) => r matches Ok(res) && res.1@ == results && res.0 == (RelicEntry {
                state: RelicState {
                    burned: e.state.burned,
                    mints: (e.state.mints - count) as u128,
                    unmints: (e.state.unmints + count) as u128,
                },
                ..e
            }),
        },
{
    let mut relic_entry = match entry {
        Some(e) => e,
        None => return Err(RelicError::RelicNotFound(id)),
    };
    let results = match relic_entry.unmintable(balance, count, base_min) {
        Ok(res) => res,
        Err(e) => return Err(e),
    };
    relic_entry.state.mints = relic_entry.state.mints - count as u128;
    relic_entry.state.unmints = relic_entry.state.unmints + count as u128;
    Ok((relic_entry, results))
}

/// What an owner can claim: the fees persisted before this block plus those collected
/// in it; nothing where there are neither.
pub fn claim_amount(stored: Option<u128>, collected: Option<u128>) -> (r: Option<u128>)
    requires
        or_zero(stored) + or_zero(collected) <= u128::MAX,
    ensures
        r == (if stored is None && collected is None {
            None
        } else {
            Some((or_zero(stored) + or_zero(collected)) as u128)
        }),
{
    if stored.is_none() && collected.is_none() {
        return None;
    }
    let old: u128 = match stored {
        Some(v) => v,
        None => 0,
    };
    let new: u128 = match collected {
        Some(v) => v,
        None => 0,
    };
    Some(old + new)
}

/// The subsidy an enshrining asks for, where the base token balance covers it.
pub fn enshrinement_subsidy(enshrining: &Enshrining, base_balance: u128) -> (r: Result<u128, RelicError>)
    ensures
        r == (if or_zero(enshrining.subsidy) > 0 && base_balance < or_zero(enshrining.subsidy) {
            Err::<u128, RelicError>(RelicError::MissingSubsidy(or_zero(enshrining.subsidy)))
        } else {
            Ok(or_zero(enshrining.subsidy))
        }),
{
    let subsidy: u128 = match enshrining.subsidy {
        Some(s) => s,
        None => 0,
    };
    if subsidy > 0 && base_balance < subsidy {
        return Err(RelicError::MissingSubsidy(subsidy));
    }
    Ok(subsidy)
}

/// The entry of a newly enshrined relic; an enshrining with a subsidy gets a pool
/// holding only the subsidy, with the fee capped at 1000 bps.
pub fn new_relic_entry(
    txid: Txid,
    enshrining: Enshrining,
    id: RelicId,
    spaced_relic: SpacedRelic,
    owner_sequence_number: u32,
    number: u64,
    block_time: u32,
) -> (entry: RelicEntry)
    ensures
        entry == (RelicEntry {
            block: id.block,
            enshrining: txid,
            fee: match enshrining.fee {
                Some(f) => f,
                None => 0,
            },
            number,
            spaced_relic,
            symbol: enshrining.symbol,
            owner_sequence_number: Some(owner_sequence_number),
            boost_terms: enshrining.boost_terms,
            mint_terms: enshrining.mint_terms,
            state: RelicState { burned: 0, mints: 0, unmints: 0 },
            pool: spec_subsidy_pool(enshrining),
            timestamp: block_time as u64,
        }),
{
    let fee: u16 = match enshrining.fee {
        Some(f) => f,
        None => 0,
    };
    let mut entry = RelicEntry {
        block: id.block,
        enshrining: txid,
        fee,
        number,
        spaced_relic,
        symbol: enshrining.symbol,
        owner_sequence_number: Some(owner_sequence_number),
        boost_terms: enshrining.boost_terms,
        mint_terms: enshrining.mint_terms,
        state: RelicState { burned: 0, mints: 0, unmints: 0 },
        pool: None,
        timestamp: block_time as u64,
    };
    if let Some(subsidy_amount) = enshrining.subsidy {
        if subsidy_amount > 0 {
            entry.pool = Some(
                Pool {
                    base_supply: 0,
                    quote_supply: 0,
                    fee_bps: if entry.fee < 1000 {
                        entry.fee
                    } else {
                        1000
                    },
                    subsidy: subsidy_amount,
                },
            );
        }
    }
    entry
}

/// The index of the first output that is not `OP_RETURN`.
pub open spec fn spec_first_non_op_return(scripts: Seq<Seq<u8>>) -> Option<usize> {
    if destinations(scripts).len() > 0 {
        Some(destinations(scripts)[0])
    } else {
        None
    }
}

/// Where the relics that are left go: nowhere (they burn) for a cenotaph; the
/// keepsake's pointer where it has one; else the first non-`OP_RETURN` output.
pub open spec fn spec_default_output(artifact: Option<RelicArtifact>, scripts: Seq<Seq<u8>>) -> Option<usize> {
    match artifact {
        None => spec_first_non_op_return(scripts),
        Some(RelicArtifact::Keepsake(k)) => match k.pointer {
            Some(p) => Some(p as usize),
            None => spec_first_non_op_return(scripts),
        },
        Some(RelicArtifact::Cenotaph(_)) => None,
    }
}

/// The output that receives the relics left unallocated.
pub fn default_output(artifact: &Option<RelicArtifact>, tx: &Transaction) -> (r: Option<usize>)
    ensures
        r == spec_default_output(*artifact, tx@),
{
    match artifact {
        Some(RelicArtifact::Cenotaph(_)) => None,
        Some(RelicArtifact::Keepsake(k)) if k.pointer.is_some() => {
            Some(k.pointer.unwrap() as usize)
        },
        _ => {
            let dests = crate::balance::non_op_return_outputs(tx);
            if dests.len() > 0 {
                Some(dests[0])
            } else {
                None
            }
        },
    }
}

/// The map with the amounts of both, holding the keys of `a` and those of `t` with
/// a positive amount.
pub open spec fn merged_positive(a: Map<RelicId, u128>, t: Map<RelicId, u128>) -> Map<RelicId, u128> {
    Map::new(
        |id: RelicId| a.contains_key(id) || (t.contains_key(id) && t[id] > 0),
        |id: RelicId| (amount(a, id) + amount(t, id)) as u128,
    )
}

/// The map with the amounts of both, holding the keys of either.
pub open spec fn merged(a: Map<RelicId, u128>, t: Map<RelicId, u128>) -> Map<RelicId, u128> {
    Map::new(
        |id: RelicId| a.contains_key(id) || t.contains_key(id),
        |id: RelicId| (amount(a, id) + amount(t, id)) as u128,
    )
}

/// The balances once what is left unallocated goes to the target output, or burns
/// where there is none.
pub open spec fn settled(v: BalanceView, target: Option<usize>) -> BalanceView {
    match target {
        Some(o) => BalanceView {
            total: Map::empty(),
            safe: Map::empty(),
            burned: v.burned,
            allocated: v.allocated.update(o as int, merged_positive(v.allocated[o as int], v.total)),
        },
        None => BalanceView {
            total: Map::empty(),
            safe: Map::empty(),
            burned: merged(v.burned, v.total),
            allocated: v.allocated,
        },
    }
}

/// The last step of indexing a transaction's relics: what is left unallocated goes
/// to the default output, or burns where there is none.
pub fn settle(balances: &mut RelicsBalance, artifact: &Option<RelicArtifact>, tx: &Transaction) -> (r:
    Option<usize>)
    requires
        old(balances).wf(),
        old(balances)@.allocated.len() == tx.output@.len(),
        spec_default_output(*artifact, tx@) matches Some(o) ==> o < tx.output@.len() && forall|
            id: RelicId,
        |
            #[trigger] amount(old(balances)@.allocated[o as int], id) + amount(
                old(balances)@.total,
                id,
            ) <= u128::MAX,
        spec_default_output(*artifact, tx@) is None ==> forall|id: RelicId|
            #[trigger] amount(old(balances)@.burned, id) + amount(old(balances)@.total, id)
                <= u128::MAX,
    ensures
        r == spec_default_output(*artifact, tx@),
        final(balances).wf(),
        final(balances)@ == settled(old(balances)@, r),
        final(balances)@.total == Map::<RelicId, u128>::empty(),
        r matches Some(o) ==> final(balances)@.burned == old(balances)@.burned
            && final(balances)@.allocated.len() == old(balances)@.allocated.len() && (forall|k: int|
            0 <= k < old(balances)@.allocated.len() && k != o
                ==> #[trigger] final(balances)@.allocated[k] == old(balances)@.allocated[k])
            && (forall|id: RelicId|
            #[trigger] amount(final(balances)@.allocated[o as int], id) == amount(
                old(balances)@.allocated[o as int],
                id,
            ) + amount(old(balances)@.total, id)),
        r is None ==> final(balances)@.allocated == old(balances)@.allocated && (forall|id: RelicId|
            #[trigger] amount(final(balances)@.burned, id) == amount(old(balances)@.burned, id)
                + amount(old(balances)@.total, id)),
        forall|id: RelicId|
            #[trigger] amount(final(balances)@.burned, id) + alloc_sum(final(balances)@.allocated, id)
                == amount(old(balances)@.burned, id) + alloc_sum(old(balances)@.allocated, id)
                + amount(old(balances)@.total, id),
{
    let target = default_output(artifact, tx);
    match target {
        Some(vout) => {
            let ghost before = balances@;
            balances.allocate_all(vout);
            proof {
                let m = merged_positive(before.allocated[vout as int], before.total);
                assert(balances@.allocated[vout as int] =~= m) by {
                    let ghost fin = balances@.allocated[vout as int];
                    assert forall|id: RelicId| #[trigger] m.contains_key(id) implies fin[id] == m[id] by {
                        assert(amount(balances@.allocated[vout as int], id) == amount(
                            before.allocated[vout as int],
                            id,
                        ) + amount(before.total, id));
                    }
                }
                assert(balances@.allocated =~= before.allocated.update(vout as int, m));
                assert(balances@ =~= settled(before, target));
                assert forall|id: RelicId|
                    #[trigger] amount(balances@.burned, id) + alloc_sum(balances@.allocated, id)
                        == amount(before.burned, id) + alloc_sum(before.allocated, id) + amount(
                        before.total,
                        id,
                    ) by {
                    crate::balance::lemma_alloc_sum_update(
                        before.allocated,
                        vout as int,
                        balances@.allocated[vout as int],
                        id,
                    );
                    assert(balances@.allocated =~= before.allocated.update(
                        vout as int,
                        balances@.allocated[vout as int],
                    ));
                }
            }
        },
        None => {
            let ghost before = balances@;
            balances.burn_all();
            proof {
                let m = merged(before.burned, before.total);
                assert(balances@.burned =~= m) by {
                    assert forall|id: RelicId| #[trigger] m.contains_key(id) implies balances@.burned[id]
                        == m[id] by {
                        assert(amount(balances@.burned, id) == amount(before.burned, id) + amount(
                            before.total,
                            id,
                        ));
                    }
                }
                assert(balances@ =~= settled(before, target));
            }
        },
    }
    target
}

/// What a swap against an entry's pool can give, for some result of the pool's
/// computation: refused where there is no usable pool, else checked against the
/// balance.
pub open spec fn swap_result<F: Fn(Pool, PoolSwap) -> Result<BalanceDiff, PoolError>>(
    e: RelicEntry,
    req: PoolSwap,
    balance: Option<u128>,
    calculate: F,
    res: Result<BalanceDiff, RelicError>,
) -> bool {
    if !e.spec_swap_available() {
        res == Err::<BalanceDiff, RelicError>(RelicError::SwapNotAvailable)
    } else {
        exists|c: Result<BalanceDiff, PoolError>|
            #[trigger] calculate.ensures((e.pool.unwrap(), req), c) && res == spec_swap_outcome(
                c,
                balance,
            )
    }
}

/// The request of a swap between the base token and a relic.
pub open spec fn spec_simple_swap(swap: Swap, direction: SwapDirection) -> PoolSwap {
    if swap.is_exact_input {
        PoolSwap::Input { direction, input: or_zero(swap.input_amount), min_output: swap.output_amount }
    } else {
        PoolSwap::Output {
            direction,
            output: or_zero(swap.output_amount),
            max_input: swap.input_amount,
        }
    }
}

/// A pool computation that keeps the limits of each request: at least `min_output`
/// out of a swap of exact input, at most `max_input` into a swap of exact output.
pub open spec fn honours_limits<F: Fn(Pool, PoolSwap) -> Result<BalanceDiff, PoolError>>(
    calculate: F,
) -> bool {
    forall|p: Pool, req: PoolSwap, d: BalanceDiff|
        #[trigger] calculate.ensures((p, req), Ok::<BalanceDiff, PoolError>(d)) ==> match req {
            PoolSwap::Input { min_output, .. } => min_output matches Some(m) ==> d.output >= m,
            PoolSwap::Output { max_input, .. } => max_input matches Some(m) ==> d.input <= m,
        }
}

/// A swap against a pool that keeps the limits of its request keeps them too.
proof fn lemma_swap_result_limits<F: Fn(Pool, PoolSwap) -> Result<BalanceDiff, PoolError>>(
    e: RelicEntry,
    req: PoolSwap,
    balance: Option<u128>,
    calculate: F,
    res: Result<BalanceDiff, RelicError>,
)
    requires
        honours_limits(calculate),
        swap_result(e, req, balance, calculate, res),
    ensures
        res matches Ok(d) ==> (req matches PoolSwap::Input { min_output: Some(m), .. } ==> d.output
            >= m),
        res matches Ok(d) ==> (req matches PoolSwap::Output { max_input: Some(m), .. } ==> d.input
            <= m),
{
    if e.spec_swap_available() {
        let c = choose|c: Result<BalanceDiff, PoolError>|
            #[trigger] calculate.ensures((e.pool.unwrap(), req), c) && res == spec_swap_outcome(
                c,
                balance,
            );
        if let Ok(d) = c {
            assert(calculate.ensures((e.pool.unwrap(), req), Ok::<BalanceDiff, PoolError>(d)));
        }
    }
}

/// A swap between the base token and a relic keeps the keepsake's slippage limits:
/// against a pool that keeps the limits of its requests, a swap of exact input that
/// goes through gives at least the keepsake's output amount, and a swap of exact
/// output takes at most its input amount; a swap beyond either is refused.
pub proof fn lemma_simple_swap_slippage<F: Fn(Pool, PoolSwap) -> Result<BalanceDiff, PoolError>>(
    e: RelicEntry,
    swap: Swap,
    direction: SwapDirection,
    balance: Option<u128>,
    calculate: F,
    res: Result<BalanceDiff, RelicError>,
)
    requires
        honours_limits(calculate),
        swap_result(e, spec_simple_swap(swap, direction), balance, calculate, res),
    ensures
        res is Ok && swap.is_exact_input && swap.output_amount is Some ==> res->Ok_0.output
            >= swap.output_amount.unwrap(),
        res is Ok && !swap.is_exact_input && swap.input_amount is Some ==> res->Ok_0.input
            <= swap.input_amount.unwrap(),
{
    lemma_swap_result_limits(e, spec_simple_swap(swap, direction), balance, calculate, res);
}

fn simple_swap(swap: &Swap, direction: SwapDirection) -> (r: PoolSwap)
    ensures
        r == spec_simple_swap(*swap, direction),
{
    if swap.is_exact_input {
        PoolSwap::Input {
            direction,
            input: match swap.input_amount {
                Some(a) => a,
                None => 0,
            },
            min_output: swap.output_amount,
        }
    } else {
        PoolSwap::Output {
            direction,
            output: match swap.output_amount {
                Some(a) => a,
                None => 0,
            },
            max_input: swap.input_amount,
        }
    }
}

/// The pool swaps of a keepsake's swap: buying a relic with the base token, selling
/// a relic for it, or (between two relics) selling one and buying the other with the
/// base token in between. Gives the sell and the buy that happen. The slippage limit
/// of a dual swap is checked on its second swap; `calculate` is the pools' computation.
pub fn swap_calculate<F: Fn(Pool, PoolSwap) -> Result<BalanceDiff, PoolError>>(
    swap: &Swap,
    input: RelicId,
    input_entry: Option<RelicEntry>,
    output: RelicId,
    output_entry: Option<RelicEntry>,
    input_balance: u128,
    calculate: F,
) -> (r: Result<(Option<BalanceDiff>, Option<BalanceDiff>), RelicError>)
    requires
        input != output,
        forall|p: Pool, req: PoolSwap| #[trigger] calculate.requires((p, req)),
    ensures
        input_entry is None ==> r == Err::<(Option<BalanceDiff>, Option<BalanceDiff>), RelicError>(
            RelicError::RelicNotFound(input),
        ),
        input_entry is Some && output_entry is None ==> r == Err::<
            (Option<BalanceDiff>, Option<BalanceDiff>),
            RelicError,
        >(RelicError::RelicNotFound(output)),
        input_entry is Some && output_entry is Some && input == spec_relic_id()
            ==> exists|buy: Result<BalanceDiff, RelicError>|
            #[trigger] swap_result(
                output_entry.unwrap(),
                spec_simple_swap(*swap, SwapDirection::BaseToQuote),
                Some(input_balance),
                calculate,
                buy,
            ) && r == match buy {
                Ok(b) => Ok((None::<BalanceDiff>, Some(b))),
                Err(e) => Err(e),
            },
        input_entry is Some && output_entry is Some && input != spec_relic_id()
            && output == spec_relic_id() ==> exists|sell: Result<BalanceDiff, RelicError>|
            #[trigger] swap_result(
                input_entry.unwrap(),
                spec_simple_swap(*swap, SwapDirection::QuoteToBase),
                Some(input_balance),
                calculate,
                sell,
            ) && r == match sell {
                Ok(s) => Ok((Some(s), None::<BalanceDiff>)),
                Err(e) => Err(e),
            },
        input_entry is Some && output_entry is Some && input != spec_relic_id()
            && output != spec_relic_id() && swap.is_exact_input ==> exists|
            sell: Result<BalanceDiff, RelicError>,
        |
            #[trigger] swap_result(
                input_entry.unwrap(),
                PoolSwap::Input {
                    direction: SwapDirection::QuoteToBase,
                    input: or_zero(swap.input_amount),
                    min_output: None,
                },
                Some(input_balance),
                calculate,
                sell,
            ) && match sell {
                Err(e) => r == Err::<(Option<BalanceDiff>, Option<BalanceDiff>), RelicError>(e),
                Ok(s) => exists|buy: Result<BalanceDiff, RelicError>|
                    #[trigger] swap_result(
                        output_entry.unwrap(),
                        PoolSwap::Input {
                            direction: SwapDirection::BaseToQuote,
                            input: s.output,
                            min_output: swap.output_amount,
                        },
                        None,
                        calculate,
                        buy,
                    ) && r == match buy {
                        Ok(b) => Ok((Some(s), Some(b))),
                        Err(e) => Err(e),
                    },
            },
        input_entry is Some && output_entry is Some && input != spec_relic_id()
            && output != spec_relic_id() && !swap.is_exact_input ==> exists|
            buy: Result<BalanceDiff, RelicError>,
        |
            #[trigger] swap_result(
                output_entry.unwrap(),
                PoolSwap::Output {
                    direction: SwapDirection::BaseToQuote,
                    output: or_zero(swap.output_amount),
                    max_input: None,
                },
                None,
                calculate,
                buy,
            ) && match buy {
                Err(e) => r == Err::<(Option<BalanceDiff>, Option<BalanceDiff>), RelicError>(e),
                Ok(b) => exists|sell: Result<BalanceDiff, RelicError>|
                    #[trigger] swap_result(
                        input_entry.unwrap(),
                        PoolSwap::Output {
                            direction: SwapDirection::QuoteToBase,
                            output: b.input,
                            max_input: swap.input_amount,
                        },
                        Some(input_balance),
                        calculate,
                        sell,
                    ) && r == match sell {
                        Ok(s) => Ok((Some(s), Some(b))),
                        Err(e) => Err(e),
                    },
            },
        honours_limits(calculate) && r is Ok && swap.is_exact_input && swap.output_amount is Some
            ==> match r->Ok_0 {
            (_, Some(b)) => b.output >= swap.output_amount.unwrap(),
            (Some(s), None) => s.output >= swap.output_amount.unwrap(),
            (None, None) => false,
        },
        honours_limits(calculate) && r is Ok && !swap.is_exact_input && swap.input_amount is Some
            ==> match r->Ok_0 {
            (Some(s), _) => s.input <= swap.input_amount.unwrap(),
            (None, Some(b)) => b.input <= swap.input_amount.unwrap(),
            (None, None) => false,
        },
{
    let input_entry = match input_entry {
        Some(e) => e,
        None => return Err(RelicError::RelicNotFound(input)),
    };
    let output_entry = match output_entry {
        Some(e) => e,
        None => return Err(RelicError::RelicNotFound(output)),
    };
    let base = crate::relic_id::relic_id();
    if input == base {
        let req = simple_swap(swap, SwapDirection::BaseToQuote);
        let buy = output_entry.swap(req, Some(input_balance), &calculate);
        proof {
            assert(swap_result(output_entry, req, Some(input_balance), calculate, buy));
            if honours_limits(calculate) {
                lemma_swap_result_limits(output_entry, req, Some(input_balance), calculate, buy);
            }
        }
        return match buy {
            Ok(b) => Ok((None, Some(b))),
            Err(e) => Err(e),
        };
    }
    if output == base {
        let req = simple_swap(swap, SwapDirection::QuoteToBase);
        let sell = input_entry.swap(req, Some(input_balance), &calculate);
        proof {
            assert(swap_result(input_entry, req, Some(input_balance), calculate, sell));
            if honours_limits(calculate) {
                lemma_swap_result_limits(input_entry, req, Some(input_balance), calculate, sell);
            }
        }
        return match sell {
            Ok(s) => Ok((Some(s), None)),
            Err(e) => Err(e),
        };
    }
    if swap.is_exact_input {
        let req = PoolSwap::Input {
            direction: SwapDirection::QuoteToBase,
            input: match swap.input_amount {
                Some(a) => a,
                None => 0,
            },
            min_output: None,
        };
        let sell = input_entry.swap(req, Some(input_balance), &calculate);
        proof {
            assert(swap_result(input_entry, req, Some(input_balance), calculate, sell));
            if honours_limits(calculate) {
                lemma_swap_result_limits(input_entry, req, Some(input_balance), calculate, sell);
            }
        }
        let diff_sell = match sell {
            Ok(d) => d,
            Err(e) => return Err(e),
        };
        let req2 = PoolSwap::Input {
            direction: SwapDirection::BaseToQuote,
            input: diff_sell.output,
            min_output: swap.output_amount,
        };
        let buy = output_entry.swap(req2, None, &calculate);
        proof {
            assert(swap_result(output_entry, req2, None, calculate, buy));
            if honours_limits(calculate) {
                lemma_swap_result_limits(output_entry, req2, None, calculate, buy);
            }
        }
        match buy {
            Ok(b) => Ok((Some(diff_sell), Some(b))),
            Err(e) => Err(e),
        }
    } else {
        let req = PoolSwap::Output {
            direction: SwapDirection::BaseToQuote,
            output: match swap.output_amount {
                Some(a) => a,
                None => 0,
            },
            max_input: None,
        };
        let buy = output_entry.swap(req, None, &calculate);
        proof {
            assert(swap_result(output_entry, req, None, calculate, buy));
            if honours_limits(calculate) {
                lemma_swap_result_limits(output_entry, req, None, calculate, buy);
            }
        }
        let diff_buy = match buy {
            Ok(d) => d,
            Err(e) => return Err(e),
        };
        let req2 = PoolSwap::Output {
            direction: SwapDirection::QuoteToBase,
            output: diff_buy.input,
            max_input: swap.input_amount,
        };
        let sell = input_entry.swap(req2, Some(input_balance), &calculate);
        proof {
            assert(swap_result(input_entry, req2, Some(input_balance), calculate, sell));
            if honours_limits(calculate) {
                lemma_swap_result_limits(input_entry, req2, Some(input_balance), calculate, sell);
            }
        }
        match sell {
            Ok(s) => Ok((Some(s), Some(diff_buy))),
            Err(e) => Err(e),
        }
    }
}

/// The total amount and the total price of a list of mints.
pub open spec fn lot_totals(lots: Seq<(u128, u128)>) -> (int, int)
    decreases lots.len(),
{
    if lots.len() == 0 {
        (0, 0)
    } else {
        let (a, p) = lot_totals(lots.drop_last());
        (a + lots.last().0, p + lots.last().1)
    }
}

proof fn lemma_lot_totals_mono(lots: Seq<(u128, u128)>, k: int)
    requires
        0 <= k <= lots.len(),
    ensures
        0 <= lot_totals(lots.take(k)).0 <= lot_totals(lots).0,
        0 <= lot_totals(lots.take(k)).1 <= lot_totals(lots).1,
    decreases lots.len(),
{
    if k < lots.len() {
        assert(lots.drop_last().take(k) =~= lots.take(k));
        lemma_lot_totals_mono(lots.drop_last(), k);
    } else {
        assert(lots.take(k) =~= lots);
        lemma_lot_totals_nonneg(lots);
    }
}

proof fn lemma_lot_totals_nonneg(lots: Seq<(u128, u128)>)
    ensures
        lot_totals(lots).0 >= 0,
        lot_totals(lots).1 >= 0,
    decreases lots.len(),
{
    if lots.len() > 0 {
        lemma_lot_totals_nonneg(lots.drop_last());
    }
}

proof fn lemma_unmint_prices_len(terms: MintTerms, mints: u128, n: nat)
    ensures
        spec_unmint_prices(terms, mints, n) matches Some(prices) ==> prices.len() == n,
    decreases n,
{
    if n > 0 {
        lemma_unmint_prices_len(terms, mints, (n - 1) as nat);
    }
}

proof fn lemma_sat_sum_le(prices: Seq<u128>, amount: u128)
    ensures
        sat_sum(prices) <= lot_totals(Seq::new(prices.len(), |i: int| (amount, prices[i]))).1,
    decreases prices.len(),
{
    if prices.len() > 0 {
        let p = prices.drop_last();
        lemma_sat_sum_le(p, amount);
        assert(Seq::new(prices.len(), |i: int| (amount, prices[i])).drop_last() =~= Seq::new(
            p.len(),
            |i: int| (amount, p[i]),
        ));
    }
}

/// An unmint refunds at least the minimum it asks for: the prices that `unmintable`
/// gives back add up to at least `base_min`.
pub proof fn lemma_unmint_at_least_min(e: RelicEntry, balance: u128, count: u8, base_min: u128)
    requires
        e.spec_unmintable(balance, count, base_min) is Ok,
    ensures
        lot_totals(e.spec_unmintable(balance, count, base_min)->Ok_0).1 >= base_min,
{
    let terms = e.mint_terms.unwrap();
    let prices = spec_unmint_prices(terms, e.state.mints, count as nat).unwrap();
    lemma_unmint_prices_len(terms, e.state.mints, count as nat);
    lemma_sat_sum_le(prices, or_zero(terms.amount));
    assert(e.spec_unmintable(balance, count, base_min)->Ok_0 =~= Seq::new(
        prices.len(),
        |i: int| (or_zero(terms.amount), prices[i]),
    ));
}

/// Adds up the amounts and the prices of mints (or unmints).
pub fn sum_lots(lots: &Vec<(u128, u128)>) -> (r: (u128, u128))
    requires
        lot_totals(lots@).0 <= u128::MAX,
        lot_totals(lots@).1 <= u128::MAX,
    ensures
        r.0 == lot_totals(lots@).0,
        r.1 == lot_totals(lots@).1,
{
    let mut total_amount: u128 = 0;
    let mut total_price: u128 = 0;
    let mut i: usize = 0;
    proof {
        assert(lots@.take(0) =~= Seq::<(u128, u128)>::empty());
    }
    while i < lots.len()
        invariant
            i <= lots@.len(),
            lot_totals(lots@).0 <= u128::MAX,
            lot_totals(lots@).1 <= u128::MAX,
            total_amount == lot_totals(lots@.take(i as int)).0,
            total_price == lot_totals(lots@.take(i as int)).1,
        decreases lots@.len() - i,
    {
        proof {
            assert(lots@.take(i + 1).drop_last() =~= lots@.take(i as int));
            assert(lots@.take(i + 1).last() == lots@[i as int]);
            lemma_lot_totals_mono(lots@, i + 1);
        }
        let (a, p) = lots[i];
        total_amount = total_amount + a;
        total_price = total_price + p;
        i = i + 1;
    }
    proof {
        assert(lots@.take(i as int) =~= lots@);
    }
    (total_amount, total_price)
}

/// What a keepsake's swap moves for the transaction: what the sell takes in and
/// the buy gives out, or the one swap's input and output where there is only one.
pub fn swap_amounts(sell: Option<BalanceDiff>, buy: Option<BalanceDiff>) -> (r: (u128, u128))
    requires
        sell is Some || buy is Some,
    ensures
        r == match (sell, buy) {
            (Some(s), None) => (s.input, s.output),
            (None, Some(b)) => (b.input, b.output),
            (Some(s), Some(b)) => (s.input, b.output),
            (None, None) => r,
        },
{
    match (sell, buy) {
        (Some(s), None) => (s.input, s.output),
        (None, Some(b)) => (b.input, b.output),
        (Some(s), Some(b)) => (s.input, b.output),
        (None, None) => (0, 0),
    }
}

/// What a swap against a relic's pool records: the sealing whose owner collects the
/// fee (where there is a fee and a sealing), the base token amount, the relic amount,
/// the fee, and whether the relic was sold.
pub fn swap_record(diff: &BalanceDiff, owner_sequence_number: Option<u32>) -> (r: (
    Option<u32>,
    u128,
    u128,
    u128,
    bool,
))
    ensures
        r.0 == (if diff.fee > 0 {
            owner_sequence_number
        } else {
            None
        }),
        r.3 == diff.fee,
        diff.direction == SwapDirection::BaseToQuote ==> r.1 == diff.input && r.2 == diff.output
            && !r.4,
        diff.direction == SwapDirection::QuoteToBase ==> r.1 == diff.output && r.2 == diff.input
            && r.4,
{
    let owner = if diff.fee > 0 {
        owner_sequence_number
    } else {
        None
    };
    match diff.direction {
        SwapDirection::BaseToQuote => (owner, diff.input, diff.output, diff.fee, false),
        SwapDirection::QuoteToBase => (owner, diff.output, diff.input, diff.fee, true),
    }
}

/// The script hash (HASH160) that `bitcoin::Script::script_hash` gives for a script.
pub uninterp spec fn script_hash160(script: Seq<u8>) -> Seq<u8>;

/// Hashes a script with `bitcoin::Script::script_hash`. Claimed: the bytes are the
/// named hash, twenty of them (a `ScriptHash` is a HASH160).
#[verifier::external_body]
fn script_hash(script: &[u8]) -> (h: Vec<u8>)
    ensures
        h@ == script_hash160(script@),
        h@.len() == 20,
{
    bitcoin::Script::from_bytes(script).script_hash().to_byte_array().to_vec()
}

/// The owner that a keepsake's claim names: the script hash of the claimed output.
pub fn claim_owner(tx: &Transaction, claim: u32) -> (owner: Vec<u8>)
    requires
        claim < tx.output@.len(),
    ensures
        owner@ == script_hash160(tx@[claim as int]),
        owner@.len() == 20,
{
    script_hash(tx.output[claim as usize].script_pubkey.as_slice())
}

} // verus!
