use relics::updater::{
  boost_multiplier, claim_amount, claim_owner, compute_boost_multiplier, default_output, enshrinement_subsidy,
  mint, multiplier_for_seed, new_relic_entry, settle, sum_lots, swap_amounts, swap_calculate, swap_record, unmint,
};
use relics::{
  relic_id, BalanceDiff, BoostTerms, Enshrining, Keepsake, MintTerms, Pool, PoolError, PoolSwap,
  PriceModel, Relic, RelicArtifact, RelicCenotaph, RelicEntry, RelicError, RelicId, RelicState,
  RelicsBalance, SpacedRelic, Swap, SwapDirection, Transaction, TxOut, Txid,
};

use bitcoin::hashes::Hash as BitcoinHash;
use std::hash::{DefaultHasher, Hash, Hasher};
use relics::block::UnsafeTxids;
use relics::Txid as BlockTxid;

const TXID: BlockTxid = BlockTxid { low: 1, high: 0 };

const A: RelicId = RelicId { block: 5, tx: 1 };
const B: RelicId = RelicId { block: 6, tx: 2 };

fn fixed_entry(price: u128, cap: u128, mints: u128) -> RelicEntry {
  RelicEntry {
    mint_terms: Some(MintTerms {
      amount: Some(1000),
      block_cap: None,
      cap: Some(cap),
      max_unmints: Some(10),
      price: Some(PriceModel::Fixed(price)),
      seed: Some(5000),
      tx_cap: Some(5),
    }),
    state: RelicState {
      burned: 0,
      mints,
      unmints: 0,
    },
    ..RelicEntry::default()
  }
}

fn txid() -> Txid {
  Txid::from_slice(&[7u8; 32]).unwrap()
}

fn boost(rare_chance: u32, rare_cap: u16, ultra_chance: u32, ultra_cap: u16) -> BoostTerms {
  BoostTerms {
    rare_chance: Some(rare_chance),
    rare_multiplier_cap: Some(rare_cap),
    ultra_rare_chance: Some(ultra_chance),
    ultra_rare_multiplier_cap: Some(ultra_cap),
  }
}

#[test]
fn boost_multiplier_exact_values() {
  let b = boost(100, 10, 10, 20);
  // ultra rare: rare cap + rand % (ultra cap - rare cap + 1)
  assert_eq!(boost_multiplier(5, &b), 15);
  assert_eq!(boost_multiplier(0, &b), 10);
  // rare: 1 + rand % rare cap
  assert_eq!(boost_multiplier(57, &b), 8);
  assert_eq!(boost_multiplier(50, &b), 1);
  assert_eq!(boost_multiplier(10, &b), 1);
  // neither
  assert_eq!(boost_multiplier(100, &b), 1);
  assert_eq!(boost_multiplier(999_999, &b), 1);
  assert_eq!(boost_multiplier(5, &BoostTerms::default()), 1);
}

#[test]
fn compute_boost_multiplier_stays_in_range_and_is_repeatable() {
  let b = boost(999_999, 3, 0, 4);
  for index in 0..50u128 {
    let m = compute_boost_multiplier(&A, &txid(), index, &b);
    assert!((1..=3).contains(&m));
    assert_eq!(m, compute_boost_multiplier(&A, &txid(), index, &b));
  }
  assert_eq!(compute_boost_multiplier(&A, &txid(), 0, &BoostTerms::default()), 1);
}

#[test]
fn mint_that_reaches_the_cap_creates_the_pool() {
  let entry = fixed_entry(10, 5, 3);
  let res = mint(Some(entry), A, txid(), 100, 2, 100, 0).unwrap();
  assert_eq!(res.mints, vec![(1000, 10, 1), (1000, 10, 1)]);
  assert_eq!(res.block_mints, 0);
  assert_eq!(res.entry.state.mints, 5);
  assert_eq!(
    res.entry.pool,
    Some(Pool { base_supply: 50, quote_supply: 5000, fee_bps: 100, subsidy: 0 })
  );
}

#[test]
fn mint_below_the_cap_keeps_the_pool_closed() {
  let entry = fixed_entry(10, 10, 3);
  let res = mint(Some(entry), A, txid(), 100, 2, 100, 0).unwrap();
  assert_eq!(res.entry.state.mints, 5);
  assert_eq!(res.entry.pool, None);
}

#[test]
fn mint_is_limited_by_the_block_cap() {
  let mut entry = fixed_entry(10, 10, 3);
  entry.mint_terms.as_mut().unwrap().block_cap = Some(3);
  let res = mint(Some(entry), A, txid(), 100, 2, 100, 2).unwrap();
  assert_eq!(res.mints, vec![(1000, 10, 1)]);
  assert_eq!(res.block_mints, 3);
  assert_eq!(res.entry.state.mints, 4);
  assert_eq!(
    mint(Some(entry), A, txid(), 100, 2, 100, 3).err(),
    Some(RelicError::MintBlockCapExceeded(3))
  );
}

#[test]
fn mint_errors() {
  assert_eq!(
    mint(None, A, txid(), 100, 1, 100, 0).err(),
    Some(RelicError::RelicNotFound(A))
  );
  assert_eq!(
    mint(Some(fixed_entry(10, 10, 3)), A, txid(), 100, 6, 100, 0).err(),
    Some(RelicError::MaxMintPerTxExceeded(5))
  );
  assert_eq!(
    mint(Some(fixed_entry(10, 10, 3)), A, txid(), 15, 2, 100, 0).err(),
    Some(RelicError::MintInsufficientBalance(20))
  );
}

#[test]
fn boosted_mints_multiply_the_amount() {
  let mut entry = fixed_entry(10, 100, 0);
  entry.boost_terms = Some(boost(999_999, 3, 0, 4));
  let res = mint(Some(entry), A, txid(), 1000, 5, 1000, 0).unwrap();
  assert_eq!(res.mints.len(), 5);
  for (amount, price, multiplier) in res.mints {
    assert_eq!(price, 10);
    assert!((1..=3).contains(&multiplier));
    assert_eq!(amount, 1000 * u128::from(multiplier));
  }
}

#[test]
fn unmint_updates_the_counts() {
  let entry = fixed_entry(10, 5, 3);
  let (after, lots) = unmint(Some(entry), A, 10_000, 1, 0).unwrap();
  assert_eq!(lots, vec![(1000, 10)]);
  assert_eq!(after.state, RelicState { burned: 0, mints: 2, unmints: 1 });
  assert_eq!(unmint(None, A, 0, 1, 0).err(), Some(RelicError::RelicNotFound(A)));
  assert_eq!(
    unmint(Some(fixed_entry(10, 5, 5)), A, 10_000, 1, 0).err(),
    Some(RelicError::UnmintNotAllowed)
  );
}

#[test]
fn mint_then_unmint_refunds_the_prices_paid() {
  let entry = fixed_entry(10, 10, 3);
  let minted = mint(Some(entry), A, txid(), 100, 2, 100, 0).unwrap();
  let paid: u128 = minted.mints.iter().map(|m| m.1).sum();
  let (after, lots) = unmint(Some(minted.entry), A, 2000, 2, 0).unwrap();
  let (amount, refund) = sum_lots(&lots);
  assert_eq!(refund, paid);
  assert_eq!(amount, 2000);
  assert_eq!(after.state.mints, 3);
}

#[test]
fn claim_amount_adds_stored_and_collected_fees() {
  assert_eq!(claim_amount(None, None), None);
  assert_eq!(claim_amount(Some(5), None), Some(5));
  assert_eq!(claim_amount(None, Some(0)), Some(0));
  assert_eq!(claim_amount(Some(5), Some(7)), Some(12));
}

#[test]
fn enshrinement_subsidy_needs_the_balance() {
  let with = |subsidy| Enshrining { subsidy, ..Default::default() };
  assert_eq!(enshrinement_subsidy(&with(Some(10)), 5), Err(RelicError::MissingSubsidy(10)));
  assert_eq!(enshrinement_subsidy(&with(Some(10)), 10), Ok(10));
  assert_eq!(enshrinement_subsidy(&with(None), 0), Ok(0));
  assert_eq!(enshrinement_subsidy(&with(Some(0)), 0), Ok(0));
}

#[test]
fn new_relic_entry_records_the_enshrining() {
  let spaced = SpacedRelic::new(Relic(42), 1);
  let enshrining = Enshrining {
    fee: Some(2000),
    subsidy: Some(77),
    symbol: Some('x'),
    mint_terms: Some(MintTerms::default()),
    ..Default::default()
  };
  let entry = new_relic_entry(txid(), enshrining, A, spaced, 9, 3, 1234);
  assert_eq!(entry.block, 5);
  assert_eq!(entry.enshrining, txid());
  assert_eq!(entry.fee, 2000);
  assert_eq!(entry.number, 3);
  assert_eq!(entry.spaced_relic, spaced);
  assert_eq!(entry.symbol, Some('x'));
  assert_eq!(entry.owner_sequence_number, Some(9));
  assert_eq!(entry.mint_terms, Some(MintTerms::default()));
  assert_eq!(entry.state, RelicState::default());
  assert_eq!(entry.timestamp, 1234);
  assert_eq!(
    entry.pool,
    Some(Pool { base_supply: 0, quote_supply: 0, fee_bps: 1000, subsidy: 77 })
  );
  let plain = new_relic_entry(txid(), Enshrining::default(), A, spaced, 9, 3, 1234);
  assert_eq!(plain.fee, 0);
  assert_eq!(plain.pool, None);
}

fn tx(op_returns: &[bool]) -> Transaction {
  Transaction {
    output: op_returns
      .iter()
      .map(|b| TxOut {
        script_pubkey: if *b { vec![0x6a] } else { vec![0x51] },
      })
      .collect(),
  }
}

#[test]
fn default_output_follows_the_artifact() {
  let t = tx(&[true, false, false]);
  assert_eq!(default_output(&None, &t), Some(1));
  let pointed = Keepsake { pointer: Some(2), ..Default::default() };
  assert_eq!(default_output(&Some(RelicArtifact::Keepsake(pointed)), &t), Some(2));
  assert_eq!(
    default_output(&Some(RelicArtifact::Keepsake(Keepsake::default())), &t),
    Some(1)
  );
  assert_eq!(
    default_output(&Some(RelicArtifact::Cenotaph(RelicCenotaph::default())), &t),
    None
  );
  assert_eq!(default_output(&None, &tx(&[true])), None);
}

#[test]
fn settle_sends_the_rest_to_the_default_output_or_burns_it() {
  let t = tx(&[true, false]);
  let mut b = RelicsBalance::from_flagged(&[(A, 10, true)], 2);
  assert_eq!(settle(&mut b, &None, &t), Some(1));
  let fin = b.finalize(&t, TXID, &mut UnsafeTxids::new());
  assert_eq!(fin.outputs, vec![(1, vec![(A, 10)])]);

  let mut b = RelicsBalance::from_flagged(&[(A, 10, true)], 2);
  let cenotaph = Some(RelicArtifact::Cenotaph(RelicCenotaph::default()));
  assert_eq!(settle(&mut b, &cenotaph, &t), None);
  let fin = b.finalize(&t, TXID, &mut UnsafeTxids::new());
  assert!(fin.outputs.is_empty());
  assert_eq!(fin.burned, vec![(A, 10)]);

  // a pointer at an OP_RETURN output burns on finalize
  let mut b = RelicsBalance::from_flagged(&[(A, 10, true)], 2);
  let pointed = Some(RelicArtifact::Keepsake(Keepsake { pointer: Some(0), ..Default::default() }));
  assert_eq!(settle(&mut b, &pointed, &t), Some(0));
  let fin = b.finalize(&t, TXID, &mut UnsafeTxids::new());
  assert_eq!(fin.burned, vec![(A, 10)]);
}

fn pooled(id_block: u64) -> RelicEntry {
  RelicEntry {
    block: id_block,
    pool: Some(Pool { base_supply: 1000, quote_supply: 1000, fee_bps: 0, subsidy: 0 }),
    ..RelicEntry::default()
  }
}

/// A stand-in for the pools' computation: twice the input comes out.
fn doubling(_pool: Pool, request: PoolSwap) -> Result<BalanceDiff, PoolError> {
  match request {
    PoolSwap::Input { direction, input, min_output } => {
      let output = input * 2;
      if min_output.is_some_and(|m| output < m) {
        Err(PoolError)
      } else {
        Ok(BalanceDiff { direction, input, output, fee: 0 })
      }
    }
    PoolSwap::Output { direction, output, max_input } => {
      let input = output.div_ceil(2);
      if max_input.is_some_and(|m| input > m) {
        Err(PoolError)
      } else {
        Ok(BalanceDiff { direction, input, output, fee: 0 })
      }
    }
  }
}

fn diff(direction: SwapDirection, input: u128, output: u128) -> BalanceDiff {
  BalanceDiff { direction, input, output, fee: 0 }
}

#[test]
fn swap_calculate_buys_sells_and_swaps_between_relics() {
  let base = relic_id();
  let buy = Swap {
    input_amount: Some(10),
    output_amount: None,
    is_exact_input: true,
    ..Default::default()
  };
  assert_eq!(
    swap_calculate(&buy, base, Some(pooled(1)), A, Some(pooled(5)), 100, doubling),
    Ok((None, Some(diff(SwapDirection::BaseToQuote, 10, 20))))
  );
  assert_eq!(
    swap_calculate(&buy, A, Some(pooled(5)), base, Some(pooled(1)), 100, doubling),
    Ok((Some(diff(SwapDirection::QuoteToBase, 10, 20)), None))
  );
  assert_eq!(
    swap_calculate(&buy, A, Some(pooled(5)), B, Some(pooled(6)), 100, doubling),
    Ok((
      Some(diff(SwapDirection::QuoteToBase, 10, 20)),
      Some(diff(SwapDirection::BaseToQuote, 20, 40))
    ))
  );
  let exact_output = Swap {
    input_amount: Some(3),
    output_amount: Some(12),
    is_exact_input: false,
    ..Default::default()
  };
  assert_eq!(
    swap_calculate(&exact_output, A, Some(pooled(5)), B, Some(pooled(6)), 100, doubling),
    Ok((
      Some(diff(SwapDirection::QuoteToBase, 3, 6)),
      Some(diff(SwapDirection::BaseToQuote, 6, 12))
    ))
  );
}

#[test]
fn swap_calculate_errors() {
  let base = relic_id();
  let sell = Swap { input_amount: Some(10), is_exact_input: true, ..Default::default() };
  assert_eq!(
    swap_calculate(&sell, A, None, base, Some(pooled(1)), 100, doubling),
    Err(RelicError::RelicNotFound(A))
  );
  assert_eq!(
    swap_calculate(&sell, A, Some(pooled(5)), base, None, 100, doubling),
    Err(RelicError::RelicNotFound(base))
  );
  assert_eq!(
    swap_calculate(&sell, A, Some(pooled(5)), base, Some(pooled(1)), 9, doubling),
    Err(RelicError::SwapInsufficientBalance(10))
  );
  assert_eq!(
    swap_calculate(&sell, A, Some(RelicEntry::default()), base, Some(pooled(1)), 100, doubling),
    Err(RelicError::SwapNotAvailable)
  );
  // the slippage limit of a dual swap is checked on the second swap
  let limited = Swap {
    input_amount: Some(10),
    output_amount: Some(41),
    is_exact_input: true,
    ..Default::default()
  };
  assert_eq!(
    swap_calculate(&limited, A, Some(pooled(5)), B, Some(pooled(6)), 100, doubling),
    Err(RelicError::SwapFailed(PoolError))
  );
}

#[test]
fn sum_lots_adds_amounts_and_prices() {
  assert_eq!(sum_lots(&vec![]), (0, 0));
  assert_eq!(sum_lots(&vec![(1000, 10), (2000, 15), (3, 0)]), (3003, 25));
}

#[test]
fn swap_amounts_take_the_sell_input_and_the_buy_output() {
  let sell = diff(SwapDirection::QuoteToBase, 10, 20);
  let buy = diff(SwapDirection::BaseToQuote, 20, 40);
  assert_eq!(swap_amounts(Some(sell), None), (10, 20));
  assert_eq!(swap_amounts(None, Some(buy)), (20, 40));
  assert_eq!(swap_amounts(Some(sell), Some(buy)), (10, 40));
}

#[test]
fn swap_record_maps_the_direction_and_the_fee_owner() {
  let sell = BalanceDiff { direction: SwapDirection::QuoteToBase, input: 10, output: 20, fee: 3 };
  assert_eq!(swap_record(&sell, Some(8)), (Some(8), 20, 10, 3, true));
  let buy = BalanceDiff { direction: SwapDirection::BaseToQuote, input: 10, output: 20, fee: 0 };
  assert_eq!(swap_record(&buy, Some(8)), (None, 10, 20, 0, false));
  assert_eq!(swap_record(&sell, None), (None, 20, 10, 3, true));
}

#[test]
fn claim_owner_is_the_script_hash_of_the_claimed_output() {
  let script = vec![0x76, 0xa9, 0x14];
  let t = Transaction {
    output: vec![TxOut { script_pubkey: vec![0x6a] }, TxOut { script_pubkey: script.clone() }],
  };
  let expected = bitcoin::Script::from_bytes(&script).script_hash();
  let owner = claim_owner(&t, 1);
  assert_eq!(owner.len(), 20);
  assert_eq!(owner, AsRef::<[u8]>::as_ref(&expected).to_vec());
  assert_ne!(claim_owner(&t, 0), owner);
}

#[test]
fn compute_boost_multiplier_draws_from_the_hash_of_block_txid_and_index() {
  let b = boost(999_999, 1000, 0, 2000);
  let bitcoin_txid = bitcoin::Txid::from_byte_array([7u8; 32]);
  for index in [0u128, 1, 2, 77, u128::MAX] {
    let mut hasher = DefaultHasher::new();
    A.block.hash(&mut hasher);
    bitcoin_txid.hash(&mut hasher);
    index.hash(&mut hasher);
    let seed = hasher.finish();
    let rand_val = (seed % 1_000_000) as u32;
    assert_eq!(
      compute_boost_multiplier(&A, &txid(), index, &b),
      boost_multiplier(rand_val, &b)
    );
    assert_eq!(compute_boost_multiplier(&A, &txid(), index, &b), multiplier_for_seed(seed, &b));
  }
}

#[test]
fn multiplier_for_seed_takes_the_seed_modulo_one_million() {
  let b = boost(100, 10, 10, 20);
  assert_eq!(multiplier_for_seed(5, &b), 15);
  assert_eq!(multiplier_for_seed(1_000_005, &b), 15);
  assert_eq!(multiplier_for_seed(3_000_057, &b), 8);
  assert_eq!(multiplier_for_seed(u64::MAX, &b), boost_multiplier((u64::MAX % 1_000_000) as u32, &b));
  assert_eq!(multiplier_for_seed(999_999, &b), 1);
}

#[test]
fn swap_fee_is_capped() {
  let spaced = SpacedRelic::new(Relic(42), 0);
  for (fee, capped) in [(1100u16, 1000u16), (1000, 1000), (100, 100), (0, 0)] {
    let enshrining = Enshrining {
      fee: Some(fee),
      subsidy: Some(5),
      mint_terms: Some(MintTerms::default()),
      ..Default::default()
    };
    let entry = new_relic_entry(txid(), enshrining, A, spaced, 1, 0, 0);
    assert_eq!(entry.fee, fee);
    assert_eq!(entry.pool.unwrap().fee_bps, capped);
  }
}
