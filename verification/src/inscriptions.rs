//! The relic operations that rest on a transaction's inscriptions: sealing a name,
//! enshrining a sealed relic, and minting the base token for burned inceptions.
use crate::entry::{RelicEntry, RelicState};
use crate::error::RelicError;
use crate::relic_id::RelicId;
use crate::spaced_relic::{rune_name, spec_sealing_fee, SpacedRelic};
use ordinals::Charm;
use vstd::prelude::*;

verus! {

/// The bit of an inscription's charms that marks it burned (`ordinals::Charm::Burned`, 12).
pub const BURNED_CHARM: u16 = 0x1000;

/// Tests the burned charm with `ordinals::Charm::Burned.is_set`, which its source
/// writes as `charms & (1 << 12) != 0`.
#[verifier::external_body]
fn is_burned(charms: u16) -> (r: bool)
    ensures
        r == (charms & BURNED_CHARM != 0),
{
    Charm::Burned.is_set(charms)
}

/// Seals a name: `named` is the name that the transaction's first inscription
/// carries in its metadata (or why it carries none), `already_sealed` whether that
/// name is sealed already. Gives the sealing fee to burn: refused for the base token,
/// for a name sealed already, and where the base token balance does not cover the fee.
pub fn seal(named: Result<SpacedRelic, RelicError>, base_token: SpacedRelic, already_sealed: bool, base_balance: u128) -> (r:
    Result<u128, RelicError>)
    ensures
        r == match named {
            Err(e) => Err(e),
            Ok(spaced) => if spaced == base_token {
                Err(RelicError::SealingBaseToken)
            } else if already_sealed {
                Err(RelicError::SealingAlreadyExists(spaced))
            } else if base_balance < spec_sealing_fee(rune_name(spaced.relic.0).len()) {
                Err(RelicError::SealingInsufficientBalance(
                    spec_sealing_fee(rune_name(spaced.relic.0).len()),
                ))
            } else {
                Ok(spec_sealing_fee(rune_name(spaced.relic.0).len()))
            },
        },
{
    let spaced = match named {
        Ok(s) => s,
        Err(e) => return Err(e),
    };
    if spaced == base_token {
        return Err(RelicError::SealingBaseToken);
    }
    if already_sealed {
        return Err(RelicError::SealingAlreadyExists(spaced));
    }
    let fee = spaced.relic.sealing_fee();
    if base_balance < fee {
        return Err(RelicError::SealingInsufficientBalance(fee));
    }
    Ok(fee)
}

/// How many of the parents are the inception parent.
pub open spec fn inception_parents(parents: Seq<u32>, inception: Option<u32>) -> nat
    decreases parents.len(),
{
    if parents.len() == 0 {
        0
    } else {
        inception_parents(parents.drop_last(), inception) + if inception == Some(parents.last()) {
            1nat
        } else {
            0nat
        }
    }
}

/// The inceptions that the inscriptions burn: each burned inscription counts once
/// in an integration test, else once per parent that is the inception parent.
pub open spec fn burned_inceptions(inscriptions: Seq<(u16, Vec<u32>)>, inception: Option<u32>, integration_test: bool) -> nat
    decreases inscriptions.len(),
{
    if inscriptions.len() == 0 {
        0
    } else {
        let (charms, parents) = inscriptions.last();
        burned_inceptions(inscriptions.drop_last(), inception, integration_test) + if charms
            & BURNED_CHARM == 0 {
            0nat
        } else if integration_test {
            1nat
        } else {
            inception_parents(parents@, inception)
        }
    }
}

proof fn lemma_inception_parents_bound(parents: Seq<u32>, inception: Option<u32>)
    ensures
        inception_parents(parents, inception) <= parents.len(),
    decreases parents.len(),
{
    if parents.len() > 0 {
        lemma_inception_parents_bound(parents.drop_last(), inception);
    }
}

/// Counts the inceptions burned by the transaction's inscriptions, given as their
/// charms and parents' sequence numbers; `inception` is the sequence number of the
/// inception parent, where the index knows it.
pub fn count_burned_inceptions(inscriptions: &[(u16, Vec<u32>)], inception: Option<u32>, integration_test: bool) -> (n:
    u128)
    ensures
        n == burned_inceptions(inscriptions@, inception, integration_test),
{
    let mut count: u128 = 0;
    let mut i: usize = 0;
    proof {
        assert(inscriptions@.take(0) =~= Seq::<(u16, Vec<u32>)>::empty());
    }
    while i < inscriptions.len()
        invariant
            i <= inscriptions@.len(),
            count == burned_inceptions(inscriptions@.take(i as int), inception, integration_test),
            count <= i * 0x1_0000_0000_0000_0000,
        decreases inscriptions@.len() - i,
    {
        let charms = inscriptions[i].0;
        let parents = &inscriptions[i].1;
        let ghost before = count;
        proof {
            assert(inscriptions@.take(i + 1).drop_last() =~= inscriptions@.take(i as int));
            assert(inscriptions@.take(i + 1).last() == inscriptions@[i as int]);
            assert(i * 0x1_0000_0000_0000_0000 <= 0xffff_ffff_ffff_ffff * 0x1_0000_0000_0000_0000)
                by (nonlinear_arith)
                requires
                    i < 0x1_0000_0000_0000_0000,
            ;
            assert((i + 1) * 0x1_0000_0000_0000_0000 == i * 0x1_0000_0000_0000_0000
                + 0x1_0000_0000_0000_0000) by (nonlinear_arith);
        }
        if is_burned(charms) {
            if integration_test {
                count = count + 1;
            } else {
                let mut j: usize = 0;
                let n_parents: usize = parents.len();
                proof {
                    assert(parents@.take(0) =~= Seq::<u32>::empty());
                    assert(n_parents < 0x1_0000_0000_0000_0000);
                }
                while j < parents.len()
                    invariant
                        j <= parents@.len(),
                        parents@.len() < 0x1_0000_0000_0000_0000,
                        before <= i * 0x1_0000_0000_0000_0000,
                        i * 0x1_0000_0000_0000_0000 <= 0xffff_ffff_ffff_ffff
                            * 0x1_0000_0000_0000_0000,
                        count == before + inception_parents(parents@.take(j as int), inception),
                        inception_parents(parents@.take(j as int), inception) <= j,
                    decreases parents@.len() - j,
                {
                    proof {
                        assert(parents@.take(j + 1).drop_last() =~= parents@.take(j as int));
                        assert(parents@.take(j + 1).last() == parents@[j as int]);
                    }
                    if inception == Some(parents[j]) {
                        count = count + 1;
                    }
                    j = j + 1;
                }
                proof {
                    assert(parents@.take(j as int) =~= parents@);
                }
            }
        }
        proof {
            lemma_inception_parents_bound(parents@, inception);
        }
        i = i + 1;
    }
    proof {
        assert(inscriptions@.take(i as int) =~= inscriptions@);
    }
    count
}

/// The base token's entry after minting it once per burned inception, and the
/// amount minted; nothing where no inception burns.
pub fn mint_base_token(entry: RelicEntry, burned: u128) -> (r: Option<(RelicEntry, u128)>)
    requires
        burned > 0 ==> (entry.mint_terms matches Some(terms) && terms.cap is Some && terms.amount is Some
            && entry.state.mints + burned <= terms.cap.unwrap() && terms.amount.unwrap() * burned
            <= u128::MAX),
    ensures
        burned == 0 ==> r is None,
        burned > 0 ==> r == Some(
            (
                RelicEntry {
                    state: RelicState { mints: (entry.state.mints + burned) as u128, ..entry.state },
                    ..entry
                },
                (entry.mint_terms.unwrap().amount.unwrap() * burned) as u128,
            ),
        ),
{
    if burned == 0 {
        return None;
    }
    let terms = entry.mint_terms.unwrap();
    let amount = terms.amount.unwrap() * burned;
    let mut minted = entry;
    minted.state.mints = entry.state.mints + burned;
    Some((minted, amount))
}

/// Enshrines the relic sealed by the first of the transaction's inscriptions that
/// carries a sealing: each inscription on its outputs, in order, with the relic it
/// sealed (if any), the sealing's sequence number and whether that relic is
/// enshrined already. The new relic's id is the block height and the transaction's
/// index; the index of the sealing inscription comes with it.
pub fn enshrine_relic(sealings: &[Option<(SpacedRelic, u32, bool)>], height: u32, tx_index: u32) -> (r:
    Result<(RelicId, usize), RelicError>)
    ensures
        sealings@.len() == 0 ==> r == Err::<(RelicId, usize), RelicError>(RelicError::InscriptionMissing),
        sealings@.len() > 0 && (forall|j: int| 0 <= j < sealings@.len() ==> (#[trigger] sealings@[j]) is None)
            ==> r == Err::<(RelicId, usize), RelicError>(RelicError::SealingNotFound),
        forall|i: int|
            0 <= i < sealings@.len() && (#[trigger] sealings@[i]) is Some && (forall|j: int|
                0 <= j < i ==> (#[trigger] sealings@[j]) is None) ==> r == if sealings@[i].unwrap().2 {
                Err::<(RelicId, usize), RelicError>(RelicError::RelicAlreadyEnshrined)
            } else {
                Ok((RelicId { block: height as u64, tx: tx_index }, i as usize))
            },
{
    if sealings.len() == 0 {
        return Err(RelicError::InscriptionMissing);
    }
    let mut i: usize = 0;
    while i < sealings.len()
        invariant
            i <= sealings@.len(),
            forall|j: int| 0 <= j < i ==> (#[trigger] sealings@[j]) is None,
        decreases sealings@.len() - i,
    {
        if let Some((_, _, enshrined)) = sealings[i] {
            if enshrined {
                return Err(RelicError::RelicAlreadyEnshrined);
            }
            return Ok((RelicId { block: height as u64, tx: tx_index }, i));
        }
        i = i + 1;
    }
    Err(RelicError::SealingNotFound)
}

} // verus!
