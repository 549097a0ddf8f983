use crate::pool::PoolError;
use crate::relic_id::RelicId;
use crate::spaced_relic::SpacedRelic;
use vstd::prelude::*;

verus! {

/// Why a relic operation (seal, enshrine, mint, unmint, swap, claim) was refused.
#[derive(Clone, Copy, Debug, PartialEq, Eq, Structural)]
pub enum RelicError {
    /// The relic has no mint terms.
    Unmintable,
    /// More mints in one transaction than the terms allow.
    MaxMintPerTxExceeded(u8),
    /// The mint cap is reached.
    MintCap(u128),
    /// The mints in this block reached the block cap.
    MintBlockCapExceeded(u32),
    /// A price is undefined or the total price overflows.
    PriceComputationError,
    /// The limit on base token (given, needed) is exceeded.
    MintBaseLimitExceeded(u128, u128),
    /// Not enough balance for the given amount.
    MintInsufficientBalance(u128),
    /// The relic does not allow this unmint.
    UnmintNotAllowed,
    /// Fewer mints than the unmint asks for.
    NoMintsToUnmint,
    /// The relic has no pool to swap with, or it is not bootstrapped.
    SwapNotAvailable,
    /// Not enough balance for the swap's input.
    SwapInsufficientBalance(u128),
    /// The pool refused the swap.
    SwapFailed(PoolError),
    /// The relic is not enshrined.
    RelicNotFound(RelicId),
    /// The relic is already enshrined.
    RelicAlreadyEnshrined,
    /// The transaction holds no inscription.
    InscriptionMissing,
    /// The sealing inscription has no metadata.
    InscriptionMetadataMissing,
    /// The metadata names no valid relic.
    InvalidMetadata,
    /// The base token cannot be sealed.
    SealingBaseToken,
    /// The name is already sealed.
    SealingAlreadyExists(SpacedRelic),
    /// Not enough base token for the sealing fee.
    SealingInsufficientBalance(u128),
    /// No sealing among the transaction's inscriptions.
    SealingNotFound,
    /// Not enough base token for the subsidy.
    MissingSubsidy(u128),
    /// Nothing to claim.
    NoClaimableBalance,
}

} // verus!
