use vstd::prelude::*;

verus! {

/// Why a keepsake is malformed, making it a cenotaph.
#[derive(Clone, Copy, Debug, PartialEq, Eq, Structural)]
pub enum RelicFlaw {
    /// A non-pushdata opcode follows the protocol identifier.
    Opcode,
    /// The keepsake script does not parse.
    InvalidScript,
    /// The payload holds a malformed varint.
    Varint,
    /// A tag without a value.
    TruncatedField,
    /// The body ends in an incomplete transfer.
    TrailingIntegers,
    /// A transfer names an invalid relic id.
    TransferRelicId,
    /// A transfer names an output past the transaction's outputs.
    TransferOutput,
    /// An even tag that the protocol does not know.
    UnrecognizedEvenTag,
    /// A flag that the protocol does not know.
    UnrecognizedFlag,
    /// A multi mint of the base token.
    InvalidBaseTokenMint,
    /// A swap whose input and output are the same relic.
    InvalidSwap,
    InvalidEnshriningBoostInvalidRareBoost,
    InvalidEnshriningBoostInvalidUltraRareBoost,
    InvalidEnshriningBoostInvalidRareChance,
    InvalidEnshriningBoostInvalidUltraRareChance,
    InvalidEnshriningBoostChanceOrder,
    InvalidEnshriningBoostMultiplierOrder,
    InvalidEnshriningBoostRareAmountOverflow,
    InvalidEnshriningBoostUltraRareAmountOverflow,
    InvalidEnshriningBoostNotUnmintable,
    InvalidEnshriningTermsMissingOrZeroCap,
    InvalidEnshriningTermsAmountCapOverflow,
    InvalidEnshriningTermsFixedPriceCapOverflow,
    InvalidEnshriningTermsInvalidPriceFormula,
    InvalidEnshriningTermsMissingPrice,
    InvalidEnshriningTermsInvalidCapHierarchy,
    InvalidEnshriningMaxSupplyCalculation,
    InvalidEnshriningSubsidyRules,
}

} // verus!
