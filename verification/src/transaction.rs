use vstd::prelude::*;

verus! {

/// `OP_RETURN`, which marks an output as provably unspendable.
pub const OP_RETURN: u8 = 0x6a;

/// A transaction output, as far as relics read it: its script.
#[derive(Clone, Debug, PartialEq, Eq)]
pub struct TxOut {
    pub script_pubkey: Vec<u8>,
}

/// A transaction, as far as relics read it: its outputs in order.
#[derive(Clone, Debug, PartialEq, Eq)]
pub struct Transaction {
    pub output: Vec<TxOut>,
}

impl View for Transaction {
    /// The output scripts, in order.
    type V = Seq<Seq<u8>>;

    open spec fn view(&self) -> Seq<Seq<u8>> {
        self.output@.map_values(|o: TxOut| o.script_pubkey@)
    }
}

/// A script is an `OP_RETURN` script when its first byte is `OP_RETURN`.
pub open spec fn spec_is_op_return(script: Seq<u8>) -> bool {
    script.len() > 0 && script[0] == OP_RETURN
}

impl TxOut {
    pub fn is_op_return(&self) -> (r: bool)
        ensures
            r == spec_is_op_return(self.script_pubkey@),
    {
        self.script_pubkey.len() > 0 && self.script_pubkey[0] == OP_RETURN
    }
}

} // verus!
