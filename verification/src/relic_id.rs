use vstd::prelude::*;

verus! {

/// Identifier of a relic: the block in which it was enshrined and the index
/// of the enshrining transaction within that block (`BLOCK:TX`).
#[derive(Clone, Copy, Debug, PartialEq, Eq, Structural, PartialOrd, Ord, Hash)]
pub struct RelicId {
    pub block: u64,
    pub tx: u32,
}

/// Block of the base token's id.
pub const RELIC_ID_BLOCK: u64 = 1;

/// Transaction index of the base token's id.
pub const RELIC_ID_TX: u32 = 0;

/// The id of the base token, MBTC.
pub open spec fn spec_relic_id() -> RelicId {
    RelicId { block: RELIC_ID_BLOCK, tx: RELIC_ID_TX }
}

/// The id of the base token, MBTC (`1:0`).
pub fn relic_id() -> (id: RelicId)
    ensures
        id == spec_relic_id(),
{
    RelicId { block: RELIC_ID_BLOCK, tx: RELIC_ID_TX }
}

impl Default for RelicId {
    fn default() -> (id: Self)
        ensures
            id == (RelicId { block: 0, tx: 0 }),
    {
        RelicId { block: 0, tx: 0 }
    }
}

impl RelicId {
    /// An id is valid unless it names a transaction in block zero.
    pub open spec fn spec_new(block: u64, tx: u32) -> Option<RelicId> {
        if block == 0 && tx > 0 {
            None
        } else {
            Some(RelicId { block, tx })
        }
    }

    /// The id that lies `block` blocks and (within the same block) `tx`
    /// transactions after `self`, as the transfers of a keepsake body encode it.
    pub open spec fn spec_next(self, block: u128, tx: u128) -> Option<RelicId> {
        if block > u64::MAX || self.block + block > u64::MAX {
            None
        } else if block == 0 {
            if tx > u32::MAX || self.tx + tx > u32::MAX {
                None
            } else {
                Self::spec_new(self.block, (self.tx + tx) as u32)
            }
        } else if tx > u32::MAX {
            None
        } else {
            Self::spec_new((self.block + block) as u64, tx as u32)
        }
    }

    /// The delta from `self` to `next`: the inverse of `spec_next`.
    pub open spec fn spec_delta(self, next: RelicId) -> Option<(u128, u128)> {
        if next.block < self.block {
            None
        } else if next.block == self.block {
            if next.tx < self.tx {
                None
            } else {
                Some((0u128, (next.tx - self.tx) as u128))
            }
        } else {
            Some(((next.block - self.block) as u128, next.tx as u128))
        }
    }

    pub fn new(block: u64, tx: u32) -> (id: Option<RelicId>)
        ensures
            id == Self::spec_new(block, tx),
    {
        if block == 0 && tx > 0 {
            return None;
        }
        Some(RelicId { block, tx })
    }

    pub fn next(self, block: u128, tx: u128) -> (id: Option<RelicId>)
        ensures
            id == self.spec_next(block, tx),
    {
        if block > u64::MAX as u128 {
            return None;
        }
        let block64: u64 = block as u64;
        let new_block: u64 = match self.block.checked_add(block64) {
            Some(b) => b,
            None => return None,
        };
        if block == 0 {
            if tx > u32::MAX as u128 {
                return None;
            }
            let tx32: u32 = tx as u32;
            match self.tx.checked_add(tx32) {
                Some(t) => RelicId::new(new_block, t),
                None => None,
            }
        } else {
            if tx > u32::MAX as u128 {
                return None;
            }
            RelicId::new(new_block, tx as u32)
        }
    }

    pub fn delta(self, next: RelicId) -> (d: Option<(u128, u128)>)
        ensures
            d == self.spec_delta(next),
    {
        if next.block < self.block {
            return None;
        }
        let block: u64 = next.block - self.block;
        if block == 0 {
            if next.tx < self.tx {
                return None;
            }
            Some((0u128, (next.tx - self.tx) as u128))
        } else {
            Some((block as u128, next.tx as u128))
        }
    }

    /// The stored form of an id: `(block, tx)`.
    pub fn store(self) -> (value: (u64, u32))
        ensures
            value == (self.block, self.tx),
    {
        (self.block, self.tx)
    }

    pub fn load(value: (u64, u32)) -> (id: RelicId)
        ensures
            id == (RelicId { block: value.0, tx: value.1 }),
    {
        RelicId { block: value.0, tx: value.1 }
    }
}

} // verus!
