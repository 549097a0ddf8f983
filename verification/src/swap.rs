use crate::relic_id::RelicId;
use vstd::prelude::*;

verus! {

/// A swap against the liquidity pools.
#[derive(Clone, Copy, Debug, PartialEq, Eq, Structural)]
pub struct Swap {
    /// input token, the base token where unset
    pub input: Option<RelicId>,
    /// output token, the base token where unset
    pub output: Option<RelicId>,
    /// min/max amount of input tokens
    pub input_amount: Option<u128>,
    /// min/max amount of output tokens
    pub output_amount: Option<u128>,
    /// true for an exact-input order, false for an exact-output order
    pub is_exact_input: bool,
}

impl Default for Swap {
    fn default() -> (s: Self)
        ensures
            s == (Swap {
                input: None,
                output: None,
                input_amount: None,
                output_amount: None,
                is_exact_input: false,
            }),
    {
        Swap {
            input: None,
            output: None,
            input_amount: None,
            output_amount: None,
            is_exact_input: false,
        }
    }
}

} // verus!
