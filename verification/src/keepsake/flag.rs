use vstd::prelude::*;

verus! {

/// Bits of the flags field of a keepsake.
#[derive(Clone, Copy, Debug, PartialEq, Eq, Structural)]
pub enum Flag {
    Sealing,
    Enshrining,
    MintTerms,
    Swap,
    SwapExactInput,
    MultiMint,
    BoostTerms,
    /// A bit that no keepsake may set.
    Cenotaph,
}

impl Flag {
    /// The bit position of the flag.
    pub open spec fn bit(self) -> u32 {
        match self {
            Flag::Sealing => 1,
            Flag::Enshrining => 2,
            Flag::MintTerms => 3,
            Flag::Swap => 4,
            Flag::SwapExactInput => 5,
            Flag::MultiMint => 6,
            Flag::BoostTerms => 7,
            Flag::Cenotaph => 127,
        }
    }

    pub open spec fn spec_mask(self) -> u128 {
        1u128 << self.bit()
    }

    /// `flags` without this flag, and whether it was set.
    pub open spec fn spec_take(self, flags: u128) -> (u128, bool) {
        (flags & !self.spec_mask(), flags & self.spec_mask() != 0)
    }

    pub fn mask(self) -> (m: u128)
        ensures
            m == self.spec_mask(),
    {
        let bit: u32 = match self {
            Flag::Sealing => 1,
            Flag::Enshrining => 2,
            Flag::MintTerms => 3,
            Flag::Swap => 4,
            Flag::SwapExactInput => 5,
            Flag::MultiMint => 6,
            Flag::BoostTerms => 7,
            Flag::Cenotaph => 127,
        };
        1u128 << bit
    }

    /// Clears the flag in `flags` and returns whether it was set.
    pub fn take(self, flags: &mut u128) -> (set: bool)
        ensures
            (*final(flags), set) == self.spec_take(*old(flags)),
    {
        let mask = self.mask();
        let set = *flags & mask != 0;
        *flags = *flags & !mask;
        set
    }

    /// Sets the flag in `flags`.
    pub fn set(self, flags: &mut u128)
        ensures
            *final(flags) == *old(flags) | self.spec_mask(),
    {
        *flags = *flags | self.mask();
    }
}

impl From<Flag> for u128 {
    fn from(flag: Flag) -> (m: u128)
        ensures
            m == flag.spec_mask(),
    {
        flag.mask()
    }
}

impl vstd::std_specs::convert::FromSpecImpl<Flag> for u128 {
    open spec fn obeys_from_spec() -> bool {
        true
    }

    open spec fn from_spec(flag: Flag) -> u128 {
        flag.spec_mask()
    }
}

} // verus!
