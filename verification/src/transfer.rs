use crate::relic_id::RelicId;
use crate::transaction::Transaction;
use vstd::prelude::*;

verus! {

/// An allocation of relics to an output of the transaction.
#[derive(Clone, Copy, Debug, PartialEq, Eq, Structural)]
pub struct Transfer {
    /// the relic to allocate
    pub id: RelicId,
    /// the amount to allocate; 0 means all that is left
    pub amount: u128,
    /// the output to receive the relics; the number of outputs means every
    /// non-`OP_RETURN` output
    pub output: u32,
}

impl Default for Transfer {
    fn default() -> (t: Self)
        ensures
            t == (Transfer { id: RelicId { block: 0, tx: 0 }, amount: 0, output: 0 }),
    {
        Transfer { id: RelicId::default(), amount: 0, output: 0 }
    }
}

impl Transfer {
    /// A transfer from the integers of a keepsake body, where the output is at most
    /// the number of outputs of a transaction with `n_outputs` outputs.
    pub open spec fn spec_from_integers(n_outputs: nat, id: RelicId, amount: u128, output: u128) -> Option<
        Transfer,
    > {
        if output > u32::MAX || output > n_outputs {
            None
        } else {
            Some(Transfer { id, amount, output: output as u32 })
        }
    }

    pub fn from_integers(tx: &Transaction, id: RelicId, amount: u128, output: u128) -> (t: Option<
        Self,
    >)
        requires
            tx.output.len() <= u32::MAX,
        ensures
            t == Self::spec_from_integers(tx.output.len() as nat, id, amount, output),
    {
        if output > u32::MAX as u128 {
            return None;
        }
        let output32: u32 = output as u32;
        // `output == tx.output.len()` divides the amount between all non-OP_RETURN outputs
        if output32 as usize > tx.output.len() {
            return None;
        }
        Some(Transfer { id, amount, output: output32 })
    }
}

} // verus!
