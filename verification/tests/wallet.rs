use relics::wallet::{
  check_postage, relic_outputs, claim_keepsake, enshrine_keepsake, enshrine_price, enshrine_script, mint_base_keepsake,
  mint_keepsake, mint_needs_change, swap_keepsake, swap_omits_change, unmint_keepsake,
  WalletError, MAX_OP_RETURN_SIZE,
};
use relics::{
  relic_id, Enshrining, Keepsake, MintTerms, MultiMint, PriceModel, RelicArtifact, RelicId, Swap,
  Transaction, Transfer, TxOut,
};

const A: RelicId = RelicId { block: 840_000, tx: 3 };
const B: RelicId = RelicId { block: 840_001, tx: 9 };

/// Deciphers the keepsake's script as the first output of a transaction with
/// `n_outputs` outputs in all.
fn round_trip(keepsake: &Keepsake, n_outputs: usize) -> Option<RelicArtifact> {
  let mut output = vec![TxOut { script_pubkey: keepsake.encipher() }];
  for _ in 1..n_outputs {
    output.push(TxOut { script_pubkey: vec![0x51] });
  }
  Keepsake::decipher(&Transaction { output })
}

#[test]
fn enshrine_price_picks_fixed_or_formula() {
  assert_eq!(enshrine_price(Some(5), None, None, None), Ok(PriceModel::Fixed(5)));
  assert_eq!(
    enshrine_price(None, Some(10), Some(5), Some(1)),
    Ok(PriceModel::Formula { a: 10, b: 5, c: 1 })
  );
  assert_eq!(enshrine_price(None, None, None, None), Err(WalletError::MissingPrice));
  assert_eq!(
    enshrine_price(Some(5), Some(10), None, None),
    Err(WalletError::ConflictingPrice)
  );
  assert_eq!(
    enshrine_price(None, Some(10), Some(5), None),
    Err(WalletError::IncompleteFormula)
  );
}

#[test]
fn enshrine_keepsake_holds_the_terms_and_deciphers_back() {
  let k = enshrine_keepsake(
    '$',
    Some(30),
    Some(0),
    1000,
    21,
    Some(0),
    PriceModel::Fixed(7),
    5000,
    Some(3),
    250,
  );
  assert_eq!(
    k,
    Keepsake {
      transfers: vec![Transfer { id: relic_id(), amount: 250, output: 2 }],
      enshrining: Some(Enshrining {
        fee: Some(30),
        subsidy: None,
        symbol: Some('$'),
        boost_terms: None,
        mint_terms: Some(MintTerms {
          amount: Some(1000),
          block_cap: None,
          cap: Some(21),
          max_unmints: None,
          price: Some(PriceModel::Fixed(7)),
          seed: Some(5000),
          tx_cap: Some(3),
        }),
      }),
      ..Default::default()
    }
  );
  assert_eq!(round_trip(&k, 3), Some(RelicArtifact::Keepsake(k.clone())));
  let script = enshrine_script(&k).unwrap();
  assert!(script.len() <= MAX_OP_RETURN_SIZE);
  assert_eq!(script, k.encipher());
}

#[test]
fn enshrine_script_refuses_keepsakes_too_large_for_op_return() {
  let k = enshrine_keepsake(
    '$',
    Some(u16::MAX),
    Some(u128::MAX),
    u128::MAX,
    u128::MAX,
    Some(u32::MAX),
    PriceModel::Formula { a: u128::MAX, b: u128::MAX, c: u128::MAX },
    u128::MAX,
    Some(u8::MAX),
    u128::MAX,
  );
  let len = k.encipher().len();
  assert!(len > MAX_OP_RETURN_SIZE);
  assert_eq!(enshrine_script(&k), Err(WalletError::KeepsakeTooLarge(len)));
}

#[test]
fn mint_keepsake_mints_and_sends_the_relic() {
  let k = mint_keepsake(A, 1000, 3, 500, true);
  assert_eq!(
    k,
    Keepsake {
      transfers: vec![Transfer { id: A, amount: 1000, output: 2 }],
      mint: Some(MultiMint { count: 3, base_limit: 500, is_unmint: false, relic: A }),
      ..Default::default()
    }
  );
  assert_eq!(round_trip(&k, 3), Some(RelicArtifact::Keepsake(k.clone())));
  let no_change = mint_keepsake(A, 1000, 1, 500, false);
  assert_eq!(no_change.transfers, vec![Transfer { id: A, amount: 1000, output: 1 }]);
}

#[test]
fn mint_needs_change_when_base_or_other_relics_are_left() {
  assert!(mint_needs_change(11, 10, 1));
  assert!(mint_needs_change(10, 10, 2));
  assert!(!mint_needs_change(10, 10, 1));
}

#[test]
fn unmint_keepsake_returns_the_change() {
  let k = unmint_keepsake(A, 7);
  assert_eq!(
    k,
    Keepsake {
      transfers: vec![Transfer { id: A, amount: 7, output: 2 }],
      mint: Some(MultiMint { count: 1, base_limit: 0, is_unmint: true, relic: A }),
      ..Default::default()
    }
  );
  assert_eq!(round_trip(&k, 3), Some(RelicArtifact::Keepsake(k.clone())));
  assert!(unmint_keepsake(A, 0).transfers.is_empty());
}

#[test]
fn mint_base_keepsake_sends_one_unit_per_mint() {
  let k = mint_base_keepsake(relic_id(), 4);
  assert_eq!(
    k,
    Keepsake {
      transfers: vec![Transfer { id: relic_id(), amount: 4, output: 2 }],
      ..Default::default()
    }
  );
  assert_eq!(round_trip(&k, 3), Some(RelicArtifact::Keepsake(k.clone())));
}

#[test]
fn swap_keepsake_names_relics_other_than_the_base_token() {
  let k = swap_keepsake(relic_id(), A, Some(100), Some(5), true, false);
  assert_eq!(
    k,
    Keepsake {
      transfers: vec![Transfer { id: A, amount: 0, output: 2 }],
      swap: Some(Swap {
        input: None,
        output: Some(A),
        input_amount: Some(100),
        output_amount: Some(5),
        is_exact_input: true,
      }),
      ..Default::default()
    }
  );
  assert_eq!(round_trip(&k, 3), Some(RelicArtifact::Keepsake(k.clone())));
  let dual = swap_keepsake(A, B, None, Some(5), false, true);
  assert!(dual.transfers.is_empty());
  assert_eq!(
    dual.swap,
    Some(Swap {
      input: Some(A),
      output: Some(B),
      input_amount: None,
      output_amount: Some(5),
      is_exact_input: false,
    })
  );
  assert_eq!(round_trip(&dual, 3), Some(RelicArtifact::Keepsake(dual.clone())));
}

#[test]
fn swap_omits_change_only_for_an_exact_spend_of_a_single_relic() {
  assert!(swap_omits_change(true, 10, 10, 1));
  assert!(!swap_omits_change(false, 10, 10, 1));
  assert!(!swap_omits_change(true, 11, 10, 1));
  assert!(!swap_omits_change(true, 10, 10, 2));
}

#[test]
fn claim_keepsake_claims_to_the_first_output() {
  let k = claim_keepsake();
  assert_eq!(k, Keepsake { claim: Some(1), ..Default::default() });
  assert_eq!(round_trip(&k, 2), Some(RelicArtifact::Keepsake(k.clone())));
}

#[test]
fn postage_must_clear_the_dust_limit() {
  let mut p2pkh = vec![0x76, 0xa9, 0x14];
  p2pkh.extend([7u8; 20]);
  p2pkh.extend([0x88, 0xac]);
  assert_eq!(check_postage(&p2pkh, 546), Err(WalletError::PostageBelowDust(546)));
  assert_eq!(check_postage(&p2pkh, 547), Ok(()));
  let mut p2wpkh = vec![0x00, 0x14];
  p2wpkh.extend([7u8; 20]);
  assert_eq!(check_postage(&p2wpkh, 294), Err(WalletError::PostageBelowDust(294)));
  assert_eq!(check_postage(&p2wpkh, 330), Ok(()));
  assert_eq!(check_postage(&[0x6a, 0x5f], 0), Err(WalletError::PostageBelowDust(0)));
  assert_eq!(check_postage(&[0x6a, 0x5f], 1), Ok(()));
  for script in [p2pkh, p2wpkh] {
    let limit = bitcoin::Script::from_bytes(&script).minimal_non_dust().to_sat();
    assert_eq!(check_postage(&script, limit), Err(WalletError::PostageBelowDust(limit)));
  }
}

#[test]
fn relic_outputs_put_the_keepsake_first_and_the_destination_last() {
  let k = vec![0x6a, 0x5f];
  assert_eq!(
    relic_outputs(k.clone(), Some(vec![1]), vec![2], 546),
    vec![(k.clone(), 0), (vec![1], 546), (vec![2], 546)]
  );
  assert_eq!(relic_outputs(k.clone(), None, vec![2], 330), vec![(k, 0), (vec![2], 330)]);
}
