//! What indexing remembers across the transactions of one block: the transactions
//! already indexed in it. Relics that their outputs carry are not safe in a later
//! transaction of the same block, so that one block cannot swap the same relics twice.
use crate::balance::input_sum;
use crate::relic_id::RelicId;
use crate::txid::Txid;
use vstd::prelude::*;

verus! {

/// The transactions indexed so far in the block.
pub struct UnsafeTxids {
    txids: Vec<Txid>,
}

impl View for UnsafeTxids {
    type V = Set<Txid>;

    closed spec fn view(&self) -> Set<Txid> {
        Set::new(|t: Txid| self.txids@.contains(t))
    }
}

impl UnsafeTxids {
    /// No transaction indexed yet: the start of a block.
    pub fn new() -> (s: UnsafeTxids)
        ensures
            s@ == Set::<Txid>::empty(),
    {
        let s = UnsafeTxids { txids: Vec::new() };
        proof {
            assert(s@ =~= Set::<Txid>::empty());
        }
        s
    }

    /// Whether the transaction was indexed earlier in the block.
    pub fn contains(&self, txid: Txid) -> (r: bool)
        ensures
            r == self@.contains(txid),
    {
        let mut i: usize = 0;
        while i < self.txids.len()
            invariant
                i <= self.txids@.len(),
                forall|j: int| 0 <= j < i ==> self.txids@[j] != txid,
            decreases self.txids@.len() - i,
        {
            if self.txids[i] == txid {
                proof {
                    assert(self.txids@[i as int] == txid);
                    assert(self.txids@.contains(txid));
                }
                return true;
            }
            i = i + 1;
        }
        false
    }

    /// Marks an indexed transaction: its outputs are not safe for the rest of the
    /// block.
    pub fn mark(&mut self, txid: Txid)
        ensures
            final(self)@ == old(self)@.insert(txid),
    {
        let ghost before = self.txids@;
        self.txids.push(txid);
        proof {
            assert forall|t: Txid| #[trigger] self.txids@.contains(t) <==> (before.contains(t) || t == txid) by {
                if self.txids@.contains(t) {
                    let j = choose|j: int| 0 <= j < self.txids@.len() && self.txids@[j] == t;
                    if j < before.len() {
                        assert(before[j] == t);
                    }
                }
                if before.contains(t) {
                    let j = choose|j: int| 0 <= j < before.len() && before[j] == t;
                    assert(self.txids@[j] == t);
                }
                if t == txid {
                    assert(self.txids@[before.len() as int] == t);
                }
            }
            assert(self@ =~= old(self)@.insert(txid));
        }
    }
}

/// The inputs' balances, each input given by the transaction it spends from and the
/// relics it holds, as views.
pub open spec fn inputs_view(inputs: Seq<(Txid, Vec<(RelicId, u128)>)>) -> Seq<(Txid, Seq<(RelicId, u128)>)> {
    inputs.map_values(|e: (Txid, Vec<(RelicId, u128)>)| (e.0, e.1@))
}

/// Each input's balances, in order, each marked safe where the input spends from a
/// transaction not indexed earlier in the block.
pub open spec fn flagged_inputs(inputs: Seq<(Txid, Seq<(RelicId, u128)>)>, marked: Set<Txid>) -> Seq<
    (RelicId, u128, bool),
>
    decreases inputs.len(),
{
    if inputs.len() == 0 {
        Seq::empty()
    } else {
        flagged_inputs(inputs.drop_last(), marked) + flag_all(inputs.last().1, !marked.contains(inputs.last().0))
    }
}

/// The balances, each with the same flag.
pub open spec fn flag_all(bal: Seq<(RelicId, u128)>, safe: bool) -> Seq<(RelicId, u128, bool)> {
    bal.map_values(|p: (RelicId, u128)| (p.0, p.1, safe))
}

/// How much of a relic the balances hold.
pub open spec fn pairs_sum(bal: Seq<(RelicId, u128)>, id: RelicId) -> int
    decreases bal.len(),
{
    if bal.len() == 0 {
        0
    } else {
        pairs_sum(bal.drop_last(), id) + if bal.last().0 == id {
            bal.last().1 as int
        } else {
            0
        }
    }
}

/// How much of a relic the inputs bring: all of them, or (where `safe_only`) those
/// that spend from transactions not indexed earlier in the block.
pub open spec fn inputs_amount(
    inputs: Seq<(Txid, Seq<(RelicId, u128)>)>,
    marked: Set<Txid>,
    id: RelicId,
    safe_only: bool,
) -> int
    decreases inputs.len(),
{
    if inputs.len() == 0 {
        0
    } else {
        inputs_amount(inputs.drop_last(), marked, id, safe_only) + if !safe_only || !marked.contains(
            inputs.last().0,
        ) {
            pairs_sum(inputs.last().1, id)
        } else {
            0
        }
    }
}

proof fn lemma_input_sum_concat(a: Seq<(RelicId, u128, bool)>, b: Seq<(RelicId, u128, bool)>, id: RelicId, safe_only: bool)
    ensures
        input_sum(a + b, id, safe_only) == input_sum(a, id, safe_only) + input_sum(b, id, safe_only),
    decreases b.len(),
{
    if b.len() == 0 {
        assert(a + b =~= a);
    } else {
        lemma_input_sum_concat(a, b.drop_last(), id, safe_only);
        assert((a + b).drop_last() =~= a + b.drop_last());
        assert((a + b).last() == b.last());
    }
}

proof fn lemma_input_sum_flag_all(bal: Seq<(RelicId, u128)>, safe: bool, id: RelicId, safe_only: bool)
    ensures
        input_sum(flag_all(bal, safe), id, safe_only) == if !safe_only || safe {
            pairs_sum(bal, id)
        } else {
            0
        },
    decreases bal.len(),
{
    if bal.len() > 0 {
        lemma_input_sum_flag_all(bal.drop_last(), safe, id, safe_only);
        assert(flag_all(bal, safe).drop_last() =~= flag_all(bal.drop_last(), safe));
    }
}

/// Summing the flagged balances counts every input's relics, and the safe ones
/// exactly where the input spends from a transaction not indexed earlier in the
/// block.
pub proof fn lemma_flagged_sums(inputs: Seq<(Txid, Seq<(RelicId, u128)>)>, marked: Set<Txid>, id: RelicId, safe_only: bool)
    ensures
        input_sum(flagged_inputs(inputs, marked), id, safe_only) == inputs_amount(inputs, marked, id, safe_only),
    decreases inputs.len(),
{
    if inputs.len() > 0 {
        lemma_flagged_sums(inputs.drop_last(), marked, id, safe_only);
        lemma_input_sum_concat(
            flagged_inputs(inputs.drop_last(), marked),
            flag_all(inputs.last().1, !marked.contains(inputs.last().0)),
            id,
            safe_only,
        );
        lemma_input_sum_flag_all(inputs.last().1, !marked.contains(inputs.last().0), id, safe_only);
    }
}

impl UnsafeTxids {
    /// Each input's balances, in order, marked safe where the input spends from a
    /// transaction not indexed earlier in the block.
    pub fn flag_inputs(&self, inputs: &[(Txid, Vec<(RelicId, u128)>)]) -> (r: Vec<(RelicId, u128, bool)>)
        ensures
            r@ == flagged_inputs(inputs_view(inputs@), self@),
    {
        let ghost iv = inputs_view(inputs@);
        let mut r: Vec<(RelicId, u128, bool)> = Vec::new();
        let mut i: usize = 0;
        proof {
            assert(iv.take(0) =~= Seq::<(Txid, Seq<(RelicId, u128)>)>::empty());
        }
        while i < inputs.len()
            invariant
                i <= inputs@.len(),
                iv == inputs_view(inputs@),
                r@ == flagged_inputs(iv.take(i as int), self@),
            decreases inputs@.len() - i,
        {
            let safe = !self.contains(inputs[i].0);
            let bal = &inputs[i].1;
            let ghost start = r@;
            let mut j: usize = 0;
            proof {
                assert(bal@.take(0) =~= Seq::<(RelicId, u128)>::empty());
                assert(start + flag_all(bal@.take(0), safe) =~= start);
            }
            while j < bal.len()
                invariant
                    j <= bal@.len(),
                    r@ == start + flag_all(bal@.take(j as int), safe),
                decreases bal@.len() - j,
            {
                let (id, amount) = bal[j];
                r.push((id, amount, safe));
                proof {
                    assert(bal@.take(j + 1) =~= bal@.take(j as int).push(bal@[j as int]));
                    assert(r@ =~= start + flag_all(bal@.take(j + 1), safe));
                }
                j = j + 1;
            }
            proof {
                assert(bal@.take(j as int) =~= bal@);
                let t = iv.take(i + 1);
                assert(t.drop_last() =~= iv.take(i as int));
                assert(t.last() == (inputs@[i as int].0, bal@));
                assert(safe == !self@.contains(t.last().0));
            }
            i = i + 1;
        }
        proof {
            assert(iv.take(i as int) =~= iv);
        }
        r
    }
}

} // verus!
