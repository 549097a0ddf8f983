use relics::block::UnsafeTxids;
use relics::indexer::{IndexHalt, RelicOperation, Step, TxIndexing};
use relics::{
  relic_id, Enshrining, Keepsake, MintTerms, MultiMint, PriceModel, RelicError, RelicId, Swap,
  Transaction, Transfer, TxOut,
};

const A: RelicId = RelicId { block: 840_000, tx: 3 };

const EARLIER: relics::Txid = relics::Txid { low: 1, high: 0 };
const SAME_BLOCK: relics::Txid = relics::Txid { low: 2, high: 0 };

/// Begins indexing with one input per balance: a safe balance spends from a
/// transaction of an earlier block, another from one indexed earlier in this block.
fn begin(tx: Transaction, inputs: &[(RelicId, u128, bool)]) -> Result<(TxIndexing, Step), IndexHalt> {
  let mut marked = UnsafeTxids::new();
  marked.mark(SAME_BLOCK);
  let inputs: Vec<(relics::Txid, Vec<(RelicId, u128)>)> = inputs
    .iter()
    .map(|(id, amount, safe)| (if *safe { EARLIER } else { SAME_BLOCK }, vec![(*id, *amount)]))
    .collect();
  TxIndexing::begin(tx, relics::Txid { low: 9, high: 9 }, &inputs, &marked)
}

/// An enshrining with mint terms and no subsidy.
fn enshrining() -> Enshrining {
  Enshrining {
    fee: Some(30),
    subsidy: None,
    symbol: Some('$'),
    boost_terms: None,
    mint_terms: Some(MintTerms {
      amount: Some(1000),
      block_cap: None,
      cap: Some(21),
      max_unmints: None,
      price: Some(PriceModel::Fixed(7)),
      seed: Some(5000),
      tx_cap: Some(3),
    }),
  }
}

fn sorted(mut v: Vec<(RelicId, u128)>) -> Vec<(RelicId, u128)> {
  v.sort();
  v
}

/// A transaction whose first output carries the keepsake, followed by `plain`
/// outputs that are not `OP_RETURN`.
fn tx_with(keepsake: Option<&Keepsake>, plain: usize) -> Transaction {
  let mut output = Vec::new();
  if let Some(k) = keepsake {
    output.push(TxOut { script_pubkey: k.encipher() });
  }
  for _ in 0..plain {
    output.push(TxOut { script_pubkey: vec![0x51] });
  }
  Transaction { output }
}

#[test]
fn plain_transfer_goes_to_the_first_output() {
  let tx = tx_with(None, 2);
  let (mut t, step) = begin(tx, &[(A, 100, true)]).unwrap();
  assert_eq!(step, Step::MintBaseToken);
  assert_eq!(t.base_minted(None), Ok(Step::Finish));
  let out = t.finish(&mut UnsafeTxids::new()).ok().unwrap();
  assert_eq!(out.finalized.outputs, vec![(0, vec![(A, 100)])]);
  assert!(out.finalized.burned.is_empty());
  assert!(out.errors.is_empty());
}

#[test]
fn overflowing_inputs_halt() {
  let tx = tx_with(None, 1);
  let r = begin(tx, &[(A, u128::MAX, true), (A, 1, false)]);
  assert!(matches!(r, Err(IndexHalt::Overflow)));
}

#[test]
fn seal_then_mint_pays_in_base_token() {
  let k = Keepsake {
    sealing: true,
    mint: Some(MultiMint { count: 2, base_limit: 50, is_unmint: false, relic: A }),
    pointer: Some(2),
    ..Keepsake::default()
  };
  let tx = tx_with(Some(&k), 2);
  let (mut t, _) = begin(tx, &[(relic_id(), 1000, true)]).unwrap();
  assert_eq!(t.base_minted(Some(10)), Ok(Step::Seal { base_balance: 1010 }));
  assert_eq!(
    t.sealed(Ok(100)),
    Ok(Step::Mint { relic: A, base_balance: 910, count: 2, base_limit: 50 })
  );
  assert_eq!(t.minted(Ok((20, 40))), Ok(Step::Finish));
  let out = t.finish(&mut UnsafeTxids::new()).ok().unwrap();
  assert_eq!(out.finalized.outputs, vec![(2, vec![(relic_id(), 870), (A, 20)])]);
  assert_eq!(out.finalized.burned, vec![(relic_id(), 100)]);
}

#[test]
fn refused_operations_are_recorded() {
  let k = Keepsake {
    sealing: true,
    enshrining: Some(enshrining()),
    mint: Some(MultiMint { count: 1, base_limit: 0, is_unmint: true, relic: RelicId::default() }),
    ..Keepsake::default()
  };
  let tx = tx_with(Some(&k), 1);
  let (mut t, _) = begin(tx, &[]).unwrap();
  assert_eq!(t.base_minted(None), Ok(Step::Seal { base_balance: 0 }));
  let step = t.sealed(Err(RelicError::InscriptionMissing)).unwrap();
  assert_eq!(step, Step::Enshrine { enshrining: enshrining(), base_balance: 0 });
  // the unmint of the relic just enshrined is refused on the way to the end
  assert_eq!(t.enshrined(Ok((A, 0))), Ok(Step::Finish));
  let out = t.finish(&mut UnsafeTxids::new()).ok().unwrap();
  assert_eq!(
    out.errors,
    vec![
      (RelicOperation::Seal, RelicError::InscriptionMissing),
      (RelicOperation::Unmint, RelicError::UnmintNotAllowed),
    ]
  );
}

#[test]
fn a_fee_above_the_balance_is_an_invalid_outcome() {
  let k = Keepsake { sealing: true, ..Keepsake::default() };
  let tx = tx_with(Some(&k), 1);
  let (mut t, _) = begin(tx, &[(relic_id(), 5, true)]).unwrap();
  assert_eq!(t.base_minted(None), Ok(Step::Seal { base_balance: 5 }));
  assert_eq!(t.sealed(Ok(6)), Err(IndexHalt::InvalidOutcome));
}

#[test]
fn swap_pays_from_the_safe_balance_and_hands_out_fees() {
  let k = Keepsake {
    swap: Some(Swap {
      input: None,
      output: Some(A),
      input_amount: Some(10),
      output_amount: None,
      is_exact_input: true,
    }),
    ..Keepsake::default()
  };
  let tx = tx_with(Some(&k), 1);
  let (mut t, _) =
    begin(tx, &[(relic_id(), 100, true), (relic_id(), 50, false)]).unwrap();
  let step = t.base_minted(None).unwrap();
  assert_eq!(
    step,
    Step::Swap { swap: k.swap.unwrap(), input: relic_id(), output: A, input_balance: 100 }
  );
  assert_eq!(t.swapped(Ok((10, 5, vec![(Some(vec![7, 7]), 1), (None, 2)]))), Ok(Step::Finish));
  let out = t.finish(&mut UnsafeTxids::new()).ok().unwrap();
  assert_eq!(out.collected, vec![(vec![7, 7], 1)]);
  assert_eq!(out.finalized.burned, vec![(relic_id(), 2)]);
  assert_eq!(out.finalized.outputs, vec![(1, vec![(relic_id(), 140), (A, 5)])]);
}

#[test]
fn swap_cannot_spend_unsafe_balance() {
  let k = Keepsake {
    swap: Some(Swap {
      input: None,
      output: Some(A),
      input_amount: Some(10),
      output_amount: None,
      is_exact_input: true,
    }),
    ..Keepsake::default()
  };
  let tx = tx_with(Some(&k), 1);
  let (mut t, _) = begin(tx, &[(relic_id(), 100, false)]).unwrap();
  let step = t.base_minted(None).unwrap();
  assert_eq!(
    step,
    Step::Swap { swap: k.swap.unwrap(), input: relic_id(), output: A, input_balance: 0 }
  );
  assert_eq!(t.swapped(Ok((10, 5, vec![]))), Err(IndexHalt::InvalidOutcome));
}

#[test]
fn unmint_refunds_base_token() {
  let k = Keepsake {
    mint: Some(MultiMint { count: 1, base_limit: 3, is_unmint: true, relic: A }),
    ..Keepsake::default()
  };
  let tx = tx_with(Some(&k), 1);
  let (mut t, _) = begin(tx, &[(A, 40, true)]).unwrap();
  assert_eq!(
    t.base_minted(None),
    Ok(Step::Unmint { relic: A, balance: 40, count: 1, base_min: 3 })
  );
  assert_eq!(t.unminted(Ok((10, 4))), Ok(Step::Finish));
  let out = t.finish(&mut UnsafeTxids::new()).ok().unwrap();
  assert_eq!(out.finalized.outputs, vec![(1, vec![(relic_id(), 4), (A, 30)])]);
}

#[test]
fn claim_allocates_to_the_claimed_output() {
  let k = Keepsake { claim: Some(2), ..Keepsake::default() };
  let tx = tx_with(Some(&k), 2);
  let (mut t, _) = begin(tx, &[]).unwrap();
  assert_eq!(t.base_minted(None), Ok(Step::Claim { output: 2 }));
  assert_eq!(t.claimed(Some(7)), Ok(Step::Finish));
  let out = t.finish(&mut UnsafeTxids::new()).ok().unwrap();
  assert_eq!(out.finalized.outputs, vec![(2, vec![(relic_id(), 7)])]);
}

#[test]
fn nothing_to_claim_is_an_error() {
  let k = Keepsake { claim: Some(1), ..Keepsake::default() };
  let tx = tx_with(Some(&k), 1);
  let (mut t, _) = begin(tx, &[]).unwrap();
  assert_eq!(t.base_minted(None), Ok(Step::Claim { output: 1 }));
  assert_eq!(t.claimed(None), Ok(Step::Finish));
  let out = t.finish(&mut UnsafeTxids::new()).ok().unwrap();
  assert_eq!(out.errors, vec![(RelicOperation::Claim, RelicError::NoClaimableBalance)]);
  assert!(out.finalized.outputs.is_empty());
}

#[test]
fn transfers_then_the_rest_to_the_default_output() {
  let k = Keepsake {
    transfers: vec![Transfer { id: A, amount: 30, output: 2 }],
    ..Keepsake::default()
  };
  let tx = tx_with(Some(&k), 2);
  let (mut t, _) = begin(tx, &[(A, 100, true)]).unwrap();
  assert_eq!(t.base_minted(None), Ok(Step::Finish));
  let out = t.finish(&mut UnsafeTxids::new()).ok().unwrap();
  assert_eq!(out.finalized.outputs, vec![(1, vec![(A, 70)]), (2, vec![(A, 30)])]);
}

#[test]
fn a_cenotaph_burns_everything() {
  // minting the base token through a keepsake is a flaw
  let k = Keepsake {
    mint: Some(MultiMint { count: 1, base_limit: 1, is_unmint: false, relic: relic_id() }),
    ..Keepsake::default()
  };
  let tx = tx_with(Some(&k), 1);
  let (mut t, _) = begin(tx, &[(A, 9, true)]).unwrap();
  assert_eq!(t.base_minted(Some(3)), Ok(Step::Finish));
  let out = t.finish(&mut UnsafeTxids::new()).ok().unwrap();
  assert!(out.finalized.outputs.is_empty());
  assert_eq!(sorted(out.finalized.burned), vec![(relic_id(), 3), (A, 9)]);
}

#[test]
fn finishing_marks_the_transaction_unsafe_for_the_block() {
  let mut block = UnsafeTxids::new();
  let first = relics::Txid { low: 7, high: 0 };
  let tx = tx_with(None, 1);
  let (mut t, _) = TxIndexing::begin(tx, first, &[(EARLIER, vec![(A, 5)])], &block).unwrap();
  t.base_minted(None).unwrap();
  t.finish(&mut block).ok().unwrap();
  assert!(block.contains(first));
  // a later transaction of the block spends the first one's output: not safe
  let k = Keepsake {
    swap: Some(Swap {
      input: Some(A),
      output: None,
      input_amount: Some(1),
      output_amount: None,
      is_exact_input: true,
    }),
    ..Keepsake::default()
  };
  let second = tx_with(Some(&k), 1);
  let (mut t, _) = TxIndexing::begin(
    second,
    relics::Txid { low: 8, high: 0 },
    &[(first, vec![(A, 5)]), (EARLIER, vec![(A, 2)])],
    &block,
  )
  .unwrap();
  assert_eq!(
    t.base_minted(None),
    Ok(Step::Swap { swap: k.swap.unwrap(), input: A, output: relic_id(), input_balance: 2 })
  );
}

#[test]
fn a_cenotaph_is_marked_too() {
  let mut block = UnsafeTxids::new();
  let k = Keepsake {
    mint: Some(MultiMint { count: 1, base_limit: 1, is_unmint: false, relic: relic_id() }),
    ..Keepsake::default()
  };
  let id = relics::Txid { low: 3, high: 3 };
  let (mut t, _) = TxIndexing::begin(tx_with(Some(&k), 1), id, &[], &block).unwrap();
  t.base_minted(None).unwrap();
  t.finish(&mut block).ok().unwrap();
  assert!(block.contains(id));
}
