//! Indexing a transaction's relics, step by step: the library decides what happens to
//! the balances and which operation comes next; the index performs each operation
//! against its tables (with the operations of `updater` and `inscriptions`) and hands
//! back the outcome.
use crate::block::{flagged_inputs, inputs_amount, inputs_view, lemma_flagged_sums, UnsafeTxids};
use crate::txid::Txid;
use crate::balance::{
    alloc_sum, bounded, committed, credit, credited_outputs, destinations, held, ids_increasing,
    input_names, input_sum, inputs_fit, lemma_alloc_sum_bounds, lemma_alloc_sum_nonneg,
    lemma_destinations_bound, lemma_input_sum_nonneg, lemma_input_sum_safe_le, lemma_op_return_sum_le,
    op_return_sum, opening, transfers_fold, BalanceView, Finalized, RelicsBalance,
};
use crate::enshrining::Enshrining;
use crate::error::RelicError;
use crate::keepsake::{
    artifact_opt_view, keepsake_fits, lemma_decipher_fits, spec_decipher, ArtifactView, Keepsake, KeepsakeView,
    RelicArtifact,
};
use crate::ledger::{amount, keys_distinct, seq_to_map};
use crate::relic_id::{relic_id, spec_relic_id, RelicId};
use crate::swap::Swap;
use crate::transaction::Transaction;
use crate::updater::{settle, settled, spec_default_output, spec_first_non_op_return};
use vstd::prelude::*;

verus! {

/// An operation of a keepsake that the index may refuse.
#[derive(Clone, Copy, Debug, PartialEq, Eq, Structural)]
pub enum RelicOperation {
    Seal,
    Enshrine,
    Swap,
    MultiMint,
    MultiUnmint,
    Unmint,
    Claim,
}

/// Why indexing must stop: a state that the index does not survive.
#[derive(Clone, Copy, Debug, PartialEq, Eq, Structural)]
pub enum IndexHalt {
    /// An amount of a relic overflows.
    Overflow,
    /// An outcome that the operations never give, such as a fee above the balance.
    InvalidOutcome,
}

/// Where indexing a transaction stands: the operation whose outcome it waits for.
#[derive(Clone, Copy, Debug, PartialEq, Eq, Structural)]
pub enum Stage {
    BaseToken,
    Seal,
    Enshrine,
    Swap,
    Unmint,
    Mint,
    Claim,
    Finish,
}

/// What the index must do next, with what it needs for it.
#[derive(Clone, Copy, Debug, PartialEq, Eq, Structural)]
pub enum Step {
    /// Mint the base token for the inceptions that the transaction burns; answer with
    /// `base_minted`.
    MintBaseToken,
    /// Seal the name that the transaction's first inscription carries; answer with
    /// `sealed`.
    Seal { base_balance: u128 },
    /// Enshrine the sealed relic; answer with `enshrined`.
    Enshrine { enshrining: Enshrining, base_balance: u128 },
    /// Swap through the pools, paying from the safe balance; answer with `swapped`.
    Swap { swap: Swap, input: RelicId, output: RelicId, input_balance: u128 },
    /// Unmint a relic; answer with `unminted`.
    Unmint { relic: RelicId, balance: u128, count: u8, base_min: u128 },
    /// Mint a relic; answer with `minted`.
    Mint { relic: RelicId, base_balance: u128, count: u8, base_limit: u128 },
    /// Claim the fees of the owner of the output; answer with `claimed`.
    Claim { output: u32 },
    /// Allocate and finalize; call `finish`.
    Finish,
}

/// A transaction's relics while it is indexed.
pub struct TxIndexing {
    tx: Transaction,
    txid: Txid,
    artifact: Option<RelicArtifact>,
    balances: RelicsBalance,
    enshrined: Option<RelicId>,
    errors: Vec<(RelicOperation, RelicError)>,
    collected: Vec<(Vec<u8>, u128)>,
    stage: Stage,
}

/// The mathematical form of a [`TxIndexing`].
pub struct IndexingView {
    pub scripts: Seq<Seq<u8>>,
    pub txid: Txid,
    pub artifact: Option<ArtifactView>,
    pub balances: BalanceView,
    pub enshrined: Option<RelicId>,
    pub errors: Seq<(RelicOperation, RelicError)>,
    pub collected: Seq<(Seq<u8>, u128)>,
    pub stage: Stage,
}

impl View for TxIndexing {
    type V = IndexingView;

    closed spec fn view(&self) -> IndexingView {
        IndexingView {
            scripts: self.tx@,
            txid: self.txid,
            artifact: artifact_opt_view(self.artifact),
            balances: self.balances@,
            enshrined: self.enshrined,
            errors: self.errors@,
            collected: self.collected@.map_values(|c: (Vec<u8>, u128)| (c.0@, c.1)),
            stage: self.stage,
        }
    }
}

/// What indexing a transaction gives: the relics of its outputs and those burned,
/// the operations refused, and the fees collected for owners.
pub struct TxOutcome {
    pub finalized: Finalized,
    pub errors: Vec<(RelicOperation, RelicError)>,
    pub collected: Vec<(Vec<u8>, u128)>,
}

/// The keepsake of the artifact, if it is one.
pub open spec fn keepsake_of(artifact: Option<ArtifactView>) -> Option<KeepsakeView> {
    match artifact {
        Some(ArtifactView::Keepsake(k)) => Some(k),
        _ => None,
    }
}

/// The relic that the keepsake mints or unmints: the one it names, or the relic
/// that the transaction enshrined where it names `0:0`.
pub open spec fn mint_target(k: KeepsakeView, enshrined: Option<RelicId>) -> Option<RelicId> {
    match k.mint {
        Some(m) => if m.relic == (RelicId { block: 0, tx: 0 }) {
            enshrined
        } else {
            Some(m.relic)
        },
        None => None,
    }
}

pub open spec fn bv_add(v: BalanceView, id: RelicId, x: u128) -> BalanceView {
    BalanceView { total: v.total.insert(id, (amount(v.total, id) + x) as u128), ..v }
}

pub open spec fn bv_add_safe(v: BalanceView, id: RelicId, x: u128) -> BalanceView {
    BalanceView {
        total: v.total.insert(id, (amount(v.total, id) + x) as u128),
        safe: v.safe.insert(id, (amount(v.safe, id) + x) as u128),
        ..v
    }
}

/// Takes from the unallocated balance, the safe part last.
pub open spec fn bv_remove(v: BalanceView, id: RelicId, x: u128) -> BalanceView {
    let left = (amount(v.total, id) - x) as u128;
    BalanceView {
        total: v.total.insert(id, left),
        safe: v.safe.insert(
            id,
            if left < amount(v.safe, id) {
                left
            } else {
                amount(v.safe, id)
            },
        ),
        ..v
    }
}

pub open spec fn bv_remove_safe(v: BalanceView, id: RelicId, x: u128) -> BalanceView {
    BalanceView {
        total: v.total.insert(id, (amount(v.total, id) - x) as u128),
        safe: v.safe.insert(id, (amount(v.safe, id) - x) as u128),
        ..v
    }
}

pub open spec fn bv_burn(v: BalanceView, id: RelicId, x: u128) -> BalanceView {
    BalanceView { burned: v.burned.insert(id, (amount(v.burned, id) + x) as u128), ..v }
}

/// The view with the stage that follows `after` (by its rank: base token 0, seal 1,
/// enshrine 2, swap 3, mint or unmint 4, claim 5): the next operation that the
/// keepsake asks for; an unmint in a transaction that enshrined a relic is refused
/// on the way.
pub open spec fn advanced(v: IndexingView, after: int) -> IndexingView {
    match keepsake_of(v.artifact) {
        None => IndexingView { stage: Stage::Finish, ..v },
        Some(k) => {
            if after < 1 && k.sealing {
                IndexingView { stage: Stage::Seal, ..v }
            } else if after < 2 && k.enshrining is Some {
                IndexingView { stage: Stage::Enshrine, ..v }
            } else if after < 3 && k.swap is Some {
                IndexingView { stage: Stage::Swap, ..v }
            } else if after < 4 && mint_target(k, v.enshrined) is Some && k.mint.unwrap().is_unmint
                && v.enshrined is Some {
                IndexingView {
                    errors: v.errors.push((RelicOperation::Unmint, RelicError::UnmintNotAllowed)),
                    stage: if k.claim is Some {
                        Stage::Claim
                    } else {
                        Stage::Finish
                    },
                    ..v
                }
            } else if after < 4 && mint_target(k, v.enshrined) is Some {
                IndexingView {
                    stage: if k.mint.unwrap().is_unmint {
                        Stage::Unmint
                    } else {
                        Stage::Mint
                    },
                    ..v
                }
            } else if after < 5 && k.claim is Some {
                IndexingView { stage: Stage::Claim, ..v }
            } else {
                IndexingView { stage: Stage::Finish, ..v }
            }
        },
    }
}

/// The relics that a swap of the keepsake trades: the base token where it names none.
pub open spec fn swap_ends(s: Swap) -> (RelicId, RelicId) {
    (
        match s.input {
            Some(i) => i,
            None => spec_relic_id(),
        },
        match s.output {
            Some(o) => o,
            None => spec_relic_id(),
        },
    )
}

/// What the index must do for the stage, with the balances it needs.
pub open spec fn spec_step(v: IndexingView) -> Step {
    let k = keepsake_of(v.artifact).unwrap();
    let base = spec_relic_id();
    match v.stage {
        Stage::BaseToken => Step::MintBaseToken,
        Stage::Seal => Step::Seal { base_balance: amount(v.balances.total, base) },
        Stage::Enshrine => Step::Enshrine {
            enshrining: k.enshrining.unwrap(),
            base_balance: amount(v.balances.total, base),
        },
        Stage::Swap => Step::Swap {
            swap: k.swap.unwrap(),
            input: swap_ends(k.swap.unwrap()).0,
            output: swap_ends(k.swap.unwrap()).1,
            input_balance: amount(v.balances.safe, swap_ends(k.swap.unwrap()).0),
        },
        Stage::Unmint => Step::Unmint {
            relic: mint_target(k, v.enshrined).unwrap(),
            balance: amount(v.balances.total, mint_target(k, v.enshrined).unwrap()),
            count: k.mint.unwrap().count,
            base_min: k.mint.unwrap().base_limit,
        },
        Stage::Mint => Step::Mint {
            relic: mint_target(k, v.enshrined).unwrap(),
            base_balance: amount(v.balances.total, base),
            count: k.mint.unwrap().count,
            base_limit: k.mint.unwrap().base_limit,
        },
        Stage::Claim => Step::Claim { output: k.claim.unwrap() },
        Stage::Finish => Step::Finish,
    }
}

/// The stage needs the keepsake: every stage but the base token's and the last.
pub open spec fn stage_consistent(v: IndexingView) -> bool {
    &&& (v.stage != Stage::BaseToken && v.stage != Stage::Finish) ==> keepsake_of(v.artifact) is Some
    &&& v.stage == Stage::Seal ==> keepsake_of(v.artifact).unwrap().sealing
    &&& v.stage == Stage::Enshrine ==> keepsake_of(v.artifact).unwrap().enshrining is Some
    &&& v.stage == Stage::Swap ==> keepsake_of(v.artifact).unwrap().swap is Some
    &&& (v.stage == Stage::Mint || v.stage == Stage::Unmint) ==> mint_target(
        keepsake_of(v.artifact).unwrap(),
        v.enshrined,
    ) is Some && keepsake_of(v.artifact).unwrap().mint is Some
    &&& v.stage == Stage::Claim ==> keepsake_of(v.artifact).unwrap().claim is Some
}

/// The relic that a keepsake's mint or unmint goes to: where the mint names `0:0`, the
/// relic that the same transaction enshrined, else the relic it names. The step asks
/// for exactly that relic, with the keepsake's count and limit.
pub proof fn lemma_mint_step_relic(v: IndexingView)
    requires
        stage_consistent(v),
        v.stage == Stage::Mint || v.stage == Stage::Unmint,
    ensures
        ({
            let m = keepsake_of(v.artifact).unwrap().mint.unwrap();
            let relic = if m.relic == (RelicId { block: 0, tx: 0 }) {
                v.enshrined.unwrap()
            } else {
                m.relic
            };
            &&& m.relic == (RelicId { block: 0, tx: 0 }) ==> v.enshrined is Some
            &&& v.stage == Stage::Mint ==> spec_step(v) == Step::Mint {
                relic,
                base_balance: amount(v.balances.total, spec_relic_id()),
                count: m.count,
                base_limit: m.base_limit,
            }
            &&& v.stage == Stage::Unmint ==> spec_step(v) == Step::Unmint {
                relic,
                balance: amount(v.balances.total, relic),
                count: m.count,
                base_min: m.base_limit,
            }
        }),
{
}

/// A mint or unmint of `0:0` in a transaction that enshrined no relic is skipped:
/// no stage that follows asks for it. One that names another relic, or `0:0` after an
/// enshrining, is asked for once the operations before it are done (an unmint after
/// an enshrining is refused instead).
pub proof fn lemma_mint_of_nothing_skipped(v: IndexingView, after: int)
    requires
        keepsake_of(v.artifact) is Some,
        keepsake_of(v.artifact).unwrap().mint is Some,
    ensures
        ({
            let k = keepsake_of(v.artifact).unwrap();
            let m = k.mint.unwrap();
            let next = advanced(v, after);
            &&& m.relic == (RelicId { block: 0, tx: 0 }) && v.enshrined is None ==> next.stage
                != Stage::Mint && next.stage != Stage::Unmint
            &&& (m.relic != (RelicId { block: 0, tx: 0 }) || v.enshrined is Some) && after < 4 && (
            after >= 3 || k.swap is None) && (after >= 2 || k.enshrining is None) && (after >= 1
                || !k.sealing) && !(m.is_unmint && v.enshrined is Some) ==> next.stage == (
            if m.is_unmint {
                Stage::Unmint
            } else {
                Stage::Mint
            })
        }),
{
}

impl TxIndexing {
    /// The balances hold each relic once, with one map per output, and the stage has
    /// what it needs.
    pub closed spec fn wf(&self) -> bool {
        &&& self.balances.wf()
        &&& self.balances@.allocated.len() == self.tx.output@.len()
        &&& self.tx.output@.len() <= u32::MAX
        &&& stage_consistent(self@)
        &&& keepsake_of(self@.artifact) matches Some(k) ==> keepsake_fits(k, self.tx.output@.len() as nat)
    }

    /// Moves to the stage after `after`.
    fn advance(&mut self, after: u8)
        requires
            old(self).balances.wf(),
            old(self).balances@.allocated.len() == old(self).tx.output@.len(),
            old(self).tx.output@.len() <= u32::MAX,
            keepsake_of(old(self)@.artifact) matches Some(k) ==> keepsake_fits(k, old(self).tx.output@.len() as nat),
            after <= 5,
        ensures
            final(self).wf(),
            final(self)@ == advanced(old(self)@, after as int),
    {
        let ghost v = self@;
        let k = match &self.artifact {
            Some(RelicArtifact::Keepsake(k)) => k,
            _ => {
                self.stage = Stage::Finish;
                proof {
                    assert(self@ == advanced(v, after as int));
                }
                return;
            },
        };
        let target: Option<RelicId> = match k.mint {
            Some(m) => if m.relic == RelicId::default() {
                self.enshrined
            } else {
                Some(m.relic)
            },
            None => None,
        };
        let claim = k.claim.is_some();
        let stage = if after < 1 && k.sealing {
            Stage::Seal
        } else if after < 2 && k.enshrining.is_some() {
            Stage::Enshrine
        } else if after < 3 && k.swap.is_some() {
            Stage::Swap
        } else if after < 4 && target.is_some() && k.mint.unwrap().is_unmint && self.enshrined.is_some() {
            self.errors.push((RelicOperation::Unmint, RelicError::UnmintNotAllowed));
            if claim {
                Stage::Claim
            } else {
                Stage::Finish
            }
        } else if after < 4 && target.is_some() {
            if k.mint.unwrap().is_unmint {
                Stage::Unmint
            } else {
                Stage::Mint
            }
        } else if after < 5 && claim {
            Stage::Claim
        } else {
            Stage::Finish
        };
        self.stage = stage;
        proof {
            assert(self@.collected =~= v.collected);
            assert(self@ == advanced(v, after as int));
        }
    }

    /// What the index must do next.
    pub fn step(&self) -> (s: Step)
        requires
            self.wf(),
        ensures
            s == spec_step(self@),
    {
        let base = relic_id();
        match self.stage {
            Stage::BaseToken => Step::MintBaseToken,
            Stage::Finish => Step::Finish,
            _ => {
                let k = match &self.artifact {
                    Some(RelicArtifact::Keepsake(k)) => k,
                    _ => {
                        proof {
                            assert(false);
                        }
                        return Step::Finish;
                    },
                };
                match self.stage {
                    Stage::Seal => Step::Seal { base_balance: self.balances.get(base) },
                    Stage::Enshrine => Step::Enshrine {
                        enshrining: k.enshrining.unwrap(),
                        base_balance: self.balances.get(base),
                    },
                    Stage::Swap => {
                        let swap = k.swap.unwrap();
                        let input = match swap.input {
                            Some(i) => i,
                            None => base,
                        };
                        let output = match swap.output {
                            Some(o) => o,
                            None => base,
                        };
                        Step::Swap { swap, input, output, input_balance: self.balances.get_safe(input) }
                    },
                    Stage::Unmint | Stage::Mint => {
                        let m = k.mint.unwrap();
                        let relic = if m.relic == RelicId::default() {
                            self.enshrined.unwrap()
                        } else {
                            m.relic
                        };
                        if self.stage == Stage::Unmint {
                            Step::Unmint {
                                relic,
                                balance: self.balances.get(relic),
                                count: m.count,
                                base_min: m.base_limit,
                            }
                        } else {
                            Step::Mint {
                                relic,
                                base_balance: self.balances.get(base),
                                count: m.count,
                                base_limit: m.base_limit,
                            }
                        }
                    },
                    _ => Step::Claim { output: k.claim.unwrap() },
                }
            },
        }
    }

    /// Starts indexing a transaction (with its id) whose inputs, each given by the
    /// transaction it spends from and the relics it holds, bring relics: an input's
    /// relics are safe where the transaction it spends from was not indexed earlier in
    /// the block. Reads the keepsake; the base token's mint comes first.
    pub fn begin(
        tx: Transaction,
        txid: Txid,
        inputs: &[(Txid, Vec<(RelicId, u128)>)],
        unsafe_txids: &UnsafeTxids,
    ) -> (r: Result<(TxIndexing, Step), IndexHalt>)
        requires
            tx.output@.len() <= u32::MAX,
        ensures
            r is Err <==> !(forall|id: RelicId| #[trigger]
                inputs_amount(inputs_view(inputs@), unsafe_txids@, id, false) <= u128::MAX),
            r is Err ==> r == Err::<(TxIndexing, Step), IndexHalt>(IndexHalt::Overflow),
            r matches Ok((t, s)) ==> t.wf() && s == Step::MintBaseToken && t@ == (IndexingView {
                scripts: tx@,
                txid,
                artifact: spec_decipher(tx@),
                balances: opening(flagged_inputs(inputs_view(inputs@), unsafe_txids@), tx.output@.len()),
                enshrined: None,
                errors: Seq::empty(),
                collected: Seq::empty(),
                stage: Stage::BaseToken,
            }),
    {
        let flagged = unsafe_txids.flag_inputs(inputs);
        let fits = inputs_fit(flagged.as_slice());
        proof {
            assert forall|id: RelicId| #[trigger] input_sum(flagged@, id, false) == inputs_amount(
                inputs_view(inputs@),
                unsafe_txids@,
                id,
                false,
            ) by {
                lemma_flagged_sums(inputs_view(inputs@), unsafe_txids@, id, false);
            }
        }
        if !fits {
            proof {
                let id = choose|id: RelicId| !(#[trigger] input_sum(flagged@, id, false) <= u128::MAX);
                assert(!(inputs_amount(inputs_view(inputs@), unsafe_txids@, id, false) <= u128::MAX));
            }
            return Err(IndexHalt::Overflow);
        }
        let artifact = Keepsake::decipher(&tx);
        let balances = RelicsBalance::from_flagged(flagged.as_slice(), tx.output.len());
        let t = TxIndexing {
            tx,
            txid,
            artifact,
            balances,
            enshrined: None,
            errors: Vec::new(),
            collected: Vec::new(),
            stage: Stage::BaseToken,
        };
        proof {
            assert forall|id: RelicId| #[trigger]
                inputs_amount(inputs_view(inputs@), unsafe_txids@, id, false) <= u128::MAX by {
                lemma_flagged_sums(inputs_view(inputs@), unsafe_txids@, id, false);
            }
            lemma_decipher_fits(t.tx@);
            assert(t@.errors =~= Seq::<(RelicOperation, RelicError)>::empty());
            assert(t@.collected =~= Seq::<(Seq<u8>, u128)>::empty());
        }
        Ok((t, Step::MintBaseToken))
    }
}

/// The view with other balances and errors.
pub open spec fn with_balances(v: IndexingView, b: BalanceView) -> IndexingView {
    IndexingView { balances: b, ..v }
}

/// The view with a refused operation recorded.
pub open spec fn with_error(v: IndexingView, op: RelicOperation, e: RelicError) -> IndexingView {
    IndexingView { errors: v.errors.push((op, e)), ..v }
}

/// The swap's fees handed out in order: a fee with an owner is collected for it, one
/// without is burned in the base token; `None` where a burn overflows.
pub open spec fn fees_applied(v: IndexingView, fees: Seq<(Option<Vec<u8>>, u128)>) -> Option<IndexingView>
    decreases fees.len(),
{
    if fees.len() == 0 {
        Some(v)
    } else {
        match fees_applied(v, fees.drop_last()) {
            None => None,
            Some(w) => {
                let (owner, fee) = fees.last();
                match owner {
                    Some(o) => Some(IndexingView { collected: w.collected.push((o@, fee)), ..w }),
                    None => if amount(w.balances.burned, spec_relic_id()) + fee > u128::MAX {
                        None
                    } else {
                        Some(with_balances(w, bv_burn(w.balances, spec_relic_id(), fee)))
                    },
                }
            },
        }
    }
}

impl TxIndexing {
    /// Takes the base token minted for burned inceptions (`None` where none burn),
    /// as a safe balance.
    pub fn base_minted(&mut self, minted: Option<u128>) -> (r: Result<Step, IndexHalt>)
        requires
            old(self).wf(),
            old(self)@.stage == Stage::BaseToken,
        ensures
            r is Err <==> (minted matches Some(a) && (amount(old(self)@.balances.total, spec_relic_id()) + a
                > u128::MAX || amount(old(self)@.balances.safe, spec_relic_id()) + a > u128::MAX)),
            r is Err ==> r == Err::<Step, IndexHalt>(IndexHalt::Overflow),
            r matches Ok(s) ==> final(self).wf() && final(self)@ == advanced(
                with_balances(
                    old(self)@,
                    match minted {
                        Some(a) => bv_add_safe(old(self)@.balances, spec_relic_id(), a),
                        None => old(self)@.balances,
                    },
                ),
                0,
            ) && s == spec_step(final(self)@),
    {
        let base = relic_id();
        let ghost v = self@;
        if let Some(a) = minted {
            if self.balances.get(base) > u128::MAX - a || self.balances.get_safe(base) > u128::MAX - a {
                return Err(IndexHalt::Overflow);
            }
            self.balances.add_safe(base, a);
            proof {
                assert(self.balances@ =~= bv_add_safe(v.balances, base, a));
            }
        }
        proof {
            assert(self@ =~= with_balances(v, match minted {
                Some(a) => bv_add_safe(v.balances, spec_relic_id(), a),
                None => v.balances,
            }));
        }
        self.advance(0);
        Ok(self.step())
    }

    /// Takes the outcome of the sealing: the fee to burn, or why it was refused.
    pub fn sealed(&mut self, outcome: Result<u128, RelicError>) -> (r: Result<Step, IndexHalt>)
        requires
            old(self).wf(),
            old(self)@.stage == Stage::Seal,
        ensures
            r == Err::<Step, IndexHalt>(IndexHalt::InvalidOutcome) <==> (outcome matches Ok(fee) && fee
                > amount(old(self)@.balances.total, spec_relic_id())),
            r == Err::<Step, IndexHalt>(IndexHalt::Overflow) <==> (outcome matches Ok(fee) && fee
                <= amount(old(self)@.balances.total, spec_relic_id()) && amount(
                old(self)@.balances.burned,
                spec_relic_id(),
            ) + fee > u128::MAX),
            r matches Ok(s) ==> final(self).wf() && final(self)@ == advanced(
                match outcome {
                    Ok(fee) => with_balances(
                        old(self)@,
                        bv_burn(bv_remove(old(self)@.balances, spec_relic_id(), fee), spec_relic_id(), fee),
                    ),
                    Err(e) => with_error(old(self)@, RelicOperation::Seal, e),
                },
                1,
            ) && s == spec_step(final(self)@),
    {
        let base = relic_id();
        let ghost v = self@;
        match outcome {
            Ok(fee) => {
                if fee > self.balances.get(base) {
                    return Err(IndexHalt::InvalidOutcome);
                }
                let burned = self.balances.burned_of(base);
                if burned > u128::MAX - fee {
                    return Err(IndexHalt::Overflow);
                }
                self.balances.remove(base, fee);
                let ghost mid = self.balances@;
                self.balances.burn(base, fee);
                proof {
                    assert(mid =~= bv_remove(v.balances, base, fee));
                    assert(self.balances@ =~= bv_burn(mid, base, fee));
                    assert(self@ =~= with_balances(v, bv_burn(bv_remove(v.balances, base, fee), base, fee)));
                }
            },
            Err(e) => {
                self.errors.push((RelicOperation::Seal, e));
                proof {
                    assert(self@.collected =~= v.collected);
                    assert(self@ =~= with_error(v, RelicOperation::Seal, e));
                }
            },
        }
        self.advance(1);
        Ok(self.step())
    }

    /// Takes the outcome of the enshrining: the new relic and the subsidy it takes
    /// from the base token balance, or why it was refused.
    pub fn enshrined(&mut self, outcome: Result<(RelicId, u128), RelicError>) -> (r: Result<Step, IndexHalt>)
        requires
            old(self).wf(),
            old(self)@.stage == Stage::Enshrine,
        ensures
            r is Err <==> (outcome matches Ok((_, subsidy)) && subsidy > amount(
                old(self)@.balances.total,
                spec_relic_id(),
            )),
            r is Err ==> r == Err::<Step, IndexHalt>(IndexHalt::InvalidOutcome),
            r matches Ok(s) ==> final(self).wf() && final(self)@ == advanced(
                match outcome {
                    Ok((id, subsidy)) => IndexingView {
                        balances: if subsidy > 0 {
                            bv_remove(old(self)@.balances, spec_relic_id(), subsidy)
                        } else {
                            old(self)@.balances
                        },
                        enshrined: Some(id),
                        ..old(self)@
                    },
                    Err(e) => with_error(old(self)@, RelicOperation::Enshrine, e),
                },
                2,
            ) && s == spec_step(final(self)@),
    {
        let base = relic_id();
        let ghost v = self@;
        match outcome {
            Ok((id, subsidy)) => {
                if subsidy > self.balances.get(base) {
                    return Err(IndexHalt::InvalidOutcome);
                }
                if subsidy > 0 {
                    self.balances.remove(base, subsidy);
                    proof {
                        assert(self.balances@ =~= bv_remove(v.balances, base, subsidy));
                    }
                }
                self.enshrined = Some(id);
            },
            Err(e) => {
                self.errors.push((RelicOperation::Enshrine, e));
                proof {
                    assert(self@.collected =~= v.collected);
                }
            },
        }
        proof {
            assert(self@.collected =~= v.collected);
        }
        self.advance(2);
        Ok(self.step())
    }

    /// Takes the outcome of the swap: what the transaction pays in, what it gets
    /// out, and the fees with the owners who collect them, or why it was refused. The
    /// input is paid from the safe balance.
    pub fn swapped(&mut self, outcome: Result<(u128, u128, Vec<(Option<Vec<u8>>, u128)>), RelicError>) -> (r:
        Result<Step, IndexHalt>)
        requires
            old(self).wf(),
            old(self)@.stage == Stage::Swap,
        ensures
            ({
                let v = old(self)@;
                let ends = swap_ends(keepsake_of(v.artifact).unwrap().swap.unwrap());
                match outcome {
                    Ok((input, output, fees)) => {
                        let paid = bv_remove_safe(v.balances, ends.0, input);
                        let got = bv_add(paid, ends.1, output);
                        &&& r == Err::<Step, IndexHalt>(IndexHalt::InvalidOutcome) <==> (input > amount(
                            v.balances.safe,
                            ends.0,
                        ) || input > amount(v.balances.total, ends.0))
                        &&& r == Err::<Step, IndexHalt>(IndexHalt::Overflow) <==> (input <= amount(
                            v.balances.safe,
                            ends.0,
                        ) && input <= amount(v.balances.total, ends.0) && (amount(paid.total, ends.1)
                            + output > u128::MAX || fees_applied(with_balances(v, got), fees@) is None))
                        &&& r matches Ok(s) ==> final(self).wf() && final(self)@ == advanced(
                            fees_applied(with_balances(v, got), fees@).unwrap(),
                            3,
                        ) && s == spec_step(final(self)@)
                    },
                    Err(e) => r matches Ok(s) && final(self).wf() && final(self)@ == advanced(
                        with_error(v, RelicOperation::Swap, e),
                        3,
                    ) && s == spec_step(final(self)@),
                }
            }),
    {
        let base = relic_id();
        let ghost v = self@;
        let swap = match &self.artifact {
            Some(RelicArtifact::Keepsake(k)) => k.swap.unwrap(),
            _ => {
                proof {
                    assert(false);
                }
                return Err(IndexHalt::InvalidOutcome);
            },
        };
        let input_id = match swap.input {
            Some(i) => i,
            None => base,
        };
        let output_id = match swap.output {
            Some(o) => o,
            None => base,
        };
        match outcome {
            Ok((input, output, fees)) => {
                if input > self.balances.get_safe(input_id) || input > self.balances.get(input_id) {
                    return Err(IndexHalt::InvalidOutcome);
                }
                self.balances.remove_safe(input_id, input);
                let ghost paid = self.balances@;
                proof {
                    assert(paid =~= bv_remove_safe(v.balances, input_id, input));
                }
                if self.balances.get(output_id) > u128::MAX - output {
                    return Err(IndexHalt::Overflow);
                }
                self.balances.add(output_id, output);
                proof {
                    assert(self.balances@ =~= bv_add(paid, output_id, output));
                    assert(self@ =~= with_balances(v, bv_add(paid, output_id, output)));
                }
                let ghost start = self@;
                let mut i: usize = 0;
                proof {
                    assert(fees@.take(0) =~= Seq::<(Option<Vec<u8>>, u128)>::empty());
                }
                while i < fees.len()
                    invariant
                        i <= fees@.len(),
                        self.balances.wf(),
                        self.balances@.allocated.len() == self.tx.output@.len(),
                        self.tx.output@.len() <= u32::MAX,
                        fees_applied(start, fees@.take(i as int)) == Some(self@),
                        base == spec_relic_id(),
                        v == old(self)@,
                        outcome == Ok::<(u128, u128, Vec<(Option<Vec<u8>>, u128)>), RelicError>((input, output, fees)),
                        (input_id, output_id) == swap_ends(keepsake_of(v.artifact).unwrap().swap.unwrap()),
                        input <= amount(v.balances.safe, input_id),
                        input <= amount(v.balances.total, input_id),
                        paid == bv_remove_safe(v.balances, input_id, input),
                        amount(paid.total, output_id) + output <= u128::MAX,
                        start == with_balances(v, bv_add(paid, output_id, output)),
                        self@.artifact == v.artifact,
                        self@.stage == v.stage,
                        self@.enshrined == v.enshrined,
                        self@.scripts == v.scripts,
                        self@.errors == v.errors,
                    decreases fees@.len() - i,
                {
                    proof {
                        assert(fees@.take(i + 1).drop_last() =~= fees@.take(i as int));
                        assert(fees@.take(i + 1).last() == fees@[i as int]);
                    }
                    let ghost w = self@;
                    match &fees[i].0 {
                        Some(owner) => {
                            self.collected.push((owner.clone(), fees[i].1));
                            proof {
                                assert(self@.collected =~= w.collected.push((owner@, fees@[i as int].1)));
                            }
                        },
                        None => {
                            let fee = fees[i].1;
                            let burned = self.balances.burned_of(base);
                            proof {
                                assert(burned == amount(w.balances.burned, spec_relic_id()));
                                assert(fee == fees@[i as int].1);
                            }
                            if burned > u128::MAX - fee {
                                proof {
                                    let t = fees@.take(i + 1);
                                    assert(t.len() > 0);
                                    assert(t.drop_last() =~= fees@.take(i as int));
                                    assert(t.last() == fees@[i as int]);
                                    assert(t.last().0 is None);
                                    assert(fees_applied(start, t.drop_last()) == Some(w));
                                    assert(amount(w.balances.burned, spec_relic_id()) + t.last().1 > u128::MAX);
                                    assert(fees_applied(start, t) is None);
                                    lemma_fees_none_stays(start, fees@, i as int + 1);
                                }
                                return Err(IndexHalt::Overflow);
                            }
                            self.balances.burn(base, fee);
                            proof {
                                assert(self.balances@ =~= bv_burn(w.balances, base, fee));
                                assert(self@.collected =~= w.collected);
                            }
                        },
                    }
                    i = i + 1;
                }
                proof {
                    assert(fees@.take(i as int) =~= fees@);
                }
            },
            Err(e) => {
                self.errors.push((RelicOperation::Swap, e));
                proof {
                    assert(self@.collected =~= v.collected);
                }
            },
        }
        proof {
            assert(stage_consistent(self@));
        }
        self.advance(3);
        Ok(self.step())
    }
}

impl TxIndexing {
    /// Takes the outcome of the unmint: the relics given back and the base token
    /// refunded, or why it was refused.
    pub fn unminted(&mut self, outcome: Result<(u128, u128), RelicError>) -> (r: Result<Step, IndexHalt>)
        requires
            old(self).wf(),
            old(self)@.stage == Stage::Unmint,
        ensures
            ({
                let v = old(self)@;
                let id = mint_target(keepsake_of(v.artifact).unwrap(), v.enshrined).unwrap();
                match outcome {
                    Ok((relics, refund)) => {
                        let paid = bv_remove(v.balances, id, relics);
                        &&& r == Err::<Step, IndexHalt>(IndexHalt::InvalidOutcome) <==> relics > amount(
                            v.balances.total,
                            id,
                        )
                        &&& r == Err::<Step, IndexHalt>(IndexHalt::Overflow) <==> (relics <= amount(
                            v.balances.total,
                            id,
                        ) && amount(paid.total, spec_relic_id()) + refund > u128::MAX)
                        &&& r matches Ok(s) ==> final(self).wf() && final(self)@ == advanced(
                            with_balances(v, bv_add(paid, spec_relic_id(), refund)),
                            4,
                        ) && s == spec_step(final(self)@)
                    },
                    Err(e) => r matches Ok(s) && final(self).wf() && final(self)@ == advanced(
                        with_error(v, RelicOperation::MultiUnmint, e),
                        4,
                    ) && s == spec_step(final(self)@),
                }
            }),
    {
        let base = relic_id();
        let ghost v = self@;
        let id = self.mint_relic();
        match outcome {
            Ok((relics, refund)) => {
                if relics > self.balances.get(id) {
                    return Err(IndexHalt::InvalidOutcome);
                }
                self.balances.remove(id, relics);
                let ghost paid = self.balances@;
                proof {
                    assert(paid =~= bv_remove(v.balances, id, relics));
                }
                if self.balances.get(base) > u128::MAX - refund {
                    return Err(IndexHalt::Overflow);
                }
                self.balances.add(base, refund);
                proof {
                    assert(self.balances@ =~= bv_add(paid, base, refund));
                    assert(self@ =~= with_balances(v, bv_add(paid, base, refund)));
                }
            },
            Err(e) => {
                self.errors.push((RelicOperation::MultiUnmint, e));
                proof {
                    assert(self@.collected =~= v.collected);
                }
            },
        }
        self.advance(4);
        Ok(self.step())
    }

    /// Takes the outcome of the mint: the relics minted and the base token paid, or
    /// why it was refused.
    pub fn minted(&mut self, outcome: Result<(u128, u128), RelicError>) -> (r: Result<Step, IndexHalt>)
        requires
            old(self).wf(),
            old(self)@.stage == Stage::Mint,
        ensures
            ({
                let v = old(self)@;
                let id = mint_target(keepsake_of(v.artifact).unwrap(), v.enshrined).unwrap();
                match outcome {
                    Ok((relics, price)) => {
                        let paid = bv_remove(v.balances, spec_relic_id(), price);
                        &&& r == Err::<Step, IndexHalt>(IndexHalt::InvalidOutcome) <==> price > amount(
                            v.balances.total,
                            spec_relic_id(),
                        )
                        &&& r == Err::<Step, IndexHalt>(IndexHalt::Overflow) <==> (price <= amount(
                            v.balances.total,
                            spec_relic_id(),
                        ) && amount(paid.total, id) + relics > u128::MAX)
                        &&& r matches Ok(s) ==> final(self).wf() && final(self)@ == advanced(
                            with_balances(v, bv_add(paid, id, relics)),
                            4,
                        ) && s == spec_step(final(self)@)
                    },
                    Err(e) => r matches Ok(s) && final(self).wf() && final(self)@ == advanced(
                        with_error(v, RelicOperation::MultiMint, e),
                        4,
                    ) && s == spec_step(final(self)@),
                }
            }),
    {
        let base = relic_id();
        let ghost v = self@;
        let id = self.mint_relic();
        match outcome {
            Ok((relics, price)) => {
                if price > self.balances.get(base) {
                    return Err(IndexHalt::InvalidOutcome);
                }
                self.balances.remove(base, price);
                let ghost paid = self.balances@;
                proof {
                    assert(paid =~= bv_remove(v.balances, base, price));
                }
                if self.balances.get(id) > u128::MAX - relics {
                    return Err(IndexHalt::Overflow);
                }
                self.balances.add(id, relics);
                proof {
                    assert(self.balances@ =~= bv_add(paid, id, relics));
                    assert(self@ =~= with_balances(v, bv_add(paid, id, relics)));
                }
            },
            Err(e) => {
                self.errors.push((RelicOperation::MultiMint, e));
                proof {
                    assert(self@.collected =~= v.collected);
                }
            },
        }
        self.advance(4);
        Ok(self.step())
    }

    /// The relic that the keepsake mints or unmints.
    fn mint_relic(&self) -> (id: RelicId)
        requires
            self.wf(),
            self@.stage == Stage::Mint || self@.stage == Stage::Unmint,
        ensures
            id == mint_target(keepsake_of(self@.artifact).unwrap(), self@.enshrined).unwrap(),
    {
        match &self.artifact {
            Some(RelicArtifact::Keepsake(k)) => {
                let m = k.mint.unwrap();
                if m.relic == RelicId::default() {
                    self.enshrined.unwrap()
                } else {
                    m.relic
                }
            },
            _ => {
                proof {
                    assert(false);
                }
                relic_id()
            },
        }
    }

    /// Takes the fees that the claimed output's owner can claim (`None` where there are
    /// none), allocating them to that output in the base token.
    pub fn claimed(&mut self, claimable: Option<u128>) -> (r: Result<Step, IndexHalt>)
        requires
            old(self).wf(),
            old(self)@.stage == Stage::Claim,
        ensures
            ({
                let v = old(self)@;
                let c = keepsake_of(v.artifact).unwrap().claim.unwrap() as int;
                &&& r is Err <==> (claimable matches Some(a) && (a > 0 && amount(
                    v.balances.allocated[c],
                    spec_relic_id(),
                ) + a > u128::MAX))
                &&& r is Err ==> r == Err::<Step, IndexHalt>(IndexHalt::Overflow)
                &&& r matches Ok(s) ==> final(self).wf() && final(self)@ == advanced(
                    match claimable {
                        Some(a) => with_balances(
                            v,
                            BalanceView {
                                allocated: credit(v.balances.allocated, c, spec_relic_id(), a),
                                ..v.balances
                            },
                        ),
                        None => with_error(v, RelicOperation::Claim, RelicError::NoClaimableBalance),
                    },
                    5,
                ) && s == spec_step(final(self)@)
            }),
    {
        let base = relic_id();
        let ghost v = self@;
        let c = match &self.artifact {
            Some(RelicArtifact::Keepsake(k)) => k.claim.unwrap(),
            _ => {
                proof {
                    assert(false);
                }
                return Err(IndexHalt::Overflow);
            },
        };
        match claimable {
            Some(a) => {
                if a > 0 && self.balances.allocated_of(c as usize, base) > u128::MAX - a {
                    return Err(IndexHalt::Overflow);
                }
                self.balances.allocate(c as usize, base, a);
                proof {
                    assert(self.balances@ =~= BalanceView {
                        allocated: credit(v.balances.allocated, c as int, base, a),
                        ..v.balances
                    });
                }
            },
            None => {
                self.errors.push((RelicOperation::Claim, RelicError::NoClaimableBalance));
                proof {
                    assert(self@.collected =~= v.collected);
                }
            },
        }
        proof {
            assert(self.balances@.allocated.len() == self.tx.output@.len());
        }
        self.advance(5);
        Ok(self.step())
    }
}

/// The balances after the keepsake's transfers (the safe part dropped); unchanged
/// where there is no keepsake.
pub open spec fn transferred(v: IndexingView) -> BalanceView {
    match keepsake_of(v.artifact) {
        Some(k) => transfers_fold(
            BalanceView { safe: Map::empty(), ..v.balances },
            k.transfers,
            v.enshrined,
            destinations(v.scripts),
            v.scripts.len(),
        ),
        None => v.balances,
    }
}

/// The output that receives what is left: none for a cenotaph, the keepsake's pointer
/// where it has one, else the first output that is not `OP_RETURN`.
pub open spec fn default_target(v: IndexingView) -> Option<usize> {
    match v.artifact {
        Some(ArtifactView::Cenotaph(_)) => None,
        Some(ArtifactView::Keepsake(k)) if k.pointer is Some => Some(k.pointer.unwrap() as usize),
        _ => spec_first_non_op_return(v.scripts),
    }
}

/// The balances once the transfers are made and what is left has gone to the
/// default output, or burned.
pub open spec fn closing(v: IndexingView) -> BalanceView {
    settled(transferred(v), default_target(v))
}

impl TxIndexing {
    /// Makes the keepsake's transfers, sends what is left to the default output (or
    /// burns it), finalizes the outputs and marks the transaction as indexed in the
    /// block (a cenotaph's too); fails where some relic's amounts, all counted
    /// together, overflow.
    pub fn finish(self, unsafe_txids: &mut UnsafeTxids) -> (r: Result<TxOutcome, IndexHalt>)
        requires
            self.wf(),
            self@.stage == Stage::Finish,
        ensures
            r is Err <==> !bounded(self@.balances),
            r is Err ==> r == Err::<TxOutcome, IndexHalt>(IndexHalt::Overflow) && final(unsafe_txids)@ == old(
                unsafe_txids,
            )@,
            r is Ok ==> final(unsafe_txids)@ == old(unsafe_txids)@.insert(self@.txid),
            r matches Ok(out) ==> ({
                let c = closing(self@);
                let n = self@.scripts.len();
                &&& out.errors@ == self@.errors
                &&& out.collected@.map_values(|e: (Vec<u8>, u128)| (e.0@, e.1)) == self@.collected
                &&& c.allocated.len() == n
                &&& forall|id: RelicId| #[trigger]
                    amount(c.burned, id) + alloc_sum(c.allocated, id) == committed(self@.balances, id)
                &&& forall|id: RelicId| #[trigger]
                    amount(seq_to_map(out.finalized.burned@), id) == amount(c.burned, id) + op_return_sum(
                        self@.scripts,
                        c.allocated,
                        id,
                        n,
                    )
                &&& keys_distinct(out.finalized.burned@)
                &&& out.finalized.outputs@.len() == credited_outputs(self@.scripts, c.allocated, n).len()
                &&& forall|j: int|
                    0 <= j < out.finalized.outputs@.len() ==> {
                        let vout = credited_outputs(self@.scripts, c.allocated, n)[j];
                        &&& (#[trigger] out.finalized.outputs@[j]).0 == vout
                        &&& seq_to_map(out.finalized.outputs@[j].1@) == c.allocated[vout]
                        &&& ids_increasing(out.finalized.outputs@[j].1@)
                    }
            }),
    {
        let ghost v = self@;
        let TxIndexing { tx, txid, artifact, mut balances, enshrined, errors, collected, stage: _ } = self;
        if !balances.is_bounded() {
            return Err(IndexHalt::Overflow);
        }
        let ghost b0 = balances@;
        let n = tx.output.len();
        if let Some(RelicArtifact::Keepsake(k)) = &artifact {
            proof {
                assert forall|x: RelicId| #[trigger] held(balances@, x) <= u128::MAX by {
                    assert(committed(b0, x) <= u128::MAX);
                }
                assert(keepsake_fits(k@, n as nat));
            }
            balances.allocate_transfers(k.transfers.as_slice(), enshrined, &tx);
        }
        let ghost b1 = balances@;
        proof {
            assert(b1 == transferred(v));
            assert forall|x: RelicId| #[trigger] committed(b1, x) == committed(b0, x) by {
                if keepsake_of(v.artifact) is Some {
                    assert(held(b1, x) == held(b0, x));
                }
            }
            assert(spec_default_output(artifact, tx@) == default_target(v));
            lemma_destinations_bound(tx@);
            assert forall|id: RelicId| #[trigger] amount(b1.burned, id) + amount(b1.total, id) <= u128::MAX by {
                lemma_alloc_sum_nonneg(b1.allocated, id);
                assert(committed(b1, id) == committed(b0, id));
                assert(committed(b0, id) <= u128::MAX);
            }
            if let Some(o) = default_target(v) {
                assert(o < n);
                assert forall|id: RelicId| #[trigger] amount(b1.allocated[o as int], id) + amount(b1.total, id)
                    <= u128::MAX by {
                    lemma_alloc_sum_bounds(b1.allocated, id, o as int);
                    assert(committed(b1, id) == committed(b0, id));
                    assert(committed(b0, id) <= u128::MAX);
                }
            }
        }
        settle(&mut balances, &artifact, &tx);
        let ghost b2 = balances@;
        proof {
            assert(b2 == closing(v));
            assert(b2.allocated.take(n as int) =~= b2.allocated);
            assert forall|id: RelicId| #[trigger] amount(b2.burned, id) + op_return_sum(tx@, b2.allocated, id, n as nat)
                <= u128::MAX by {
                lemma_op_return_sum_le(tx@, b2.allocated, id, n as nat);
                assert(committed(b1, id) == committed(b0, id));
                assert(committed(b0, id) <= u128::MAX);
            }
            assert forall|id: RelicId| #[trigger]
                amount(b2.burned, id) + alloc_sum(b2.allocated, id) == committed(b0, id) by {
                assert(committed(b1, id) == committed(b0, id));
            }
        }
        let finalized = balances.finalize(&tx, txid, unsafe_txids);
        Ok(TxOutcome { finalized, errors, collected })
    }
}

/// Once handing out the fees overflows, it stays overflowed.
proof fn lemma_fees_none_stays(v: IndexingView, fees: Seq<(Option<Vec<u8>>, u128)>, k: int)
    requires
        0 <= k <= fees.len(),
        fees_applied(v, fees.take(k)) is None,
    ensures
        fees_applied(v, fees) is None,
    decreases fees.len() - k,
{
    if k < fees.len() {
        assert(fees.take(k + 1).drop_last() =~= fees.take(k));
        lemma_fees_none_stays(v, fees, k + 1);
    } else {
        assert(fees.take(k) =~= fees);
    }
}

} // verus!
