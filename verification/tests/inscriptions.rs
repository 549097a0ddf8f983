use relics::inscriptions::{count_burned_inceptions, enshrine_relic, mint_base_token, seal, BURNED_CHARM};
use relics::spaced_relic::RELIC_NAME;
use relics::{MintTerms, PriceModel, Relic, RelicEntry, RelicError, RelicId, RelicState, SpacedRelic};
use std::str::FromStr;

fn name(s: &str) -> SpacedRelic {
  SpacedRelic::from_str(s).unwrap()
}

#[test]
fn base_token_is_mbtc() {
  assert_eq!(SpacedRelic::base_token().unwrap(), name(RELIC_NAME));
  assert_eq!(SpacedRelic::base_token().unwrap().to_string(), "MBTC");
}

#[test]
fn sealing_fee_follows_the_name_length() {
  let fee = |s: &str| name(s).relic.sealing_fee();
  assert_eq!(fee("A"), 210_000 * 100_000_000);
  assert_eq!(fee("AB"), 21_000 * 100_000_000);
  assert_eq!(fee("ABC"), 2_100 * 100_000_000);
  assert_eq!(fee("ABCD"), 500 * 100_000_000);
  assert_eq!(fee("ABCDEF"), 500 * 100_000_000);
  assert_eq!(fee("ABCDEFG"), 10 * 100_000_000);
  assert_eq!(fee("ABCDEFGHIJKL"), 10 * 100_000_000);
  assert_eq!(fee("ABCDEFGHIJKLM"), 100_000_000);
  // spacers do not count
  assert_eq!(fee("BASIC•TEST•RELIC"), 100_000_000);
  assert_eq!(fee("A•B"), 21_000 * 100_000_000);
}

#[test]
fn seal_burns_the_fee_of_a_new_name() {
  let base = SpacedRelic::base_token().unwrap();
  let relic = name("BASIC•TEST•RELIC");
  assert_eq!(seal(Ok(relic), base, false, 100_000_000), Ok(100_000_000));
  assert_eq!(
    seal(Ok(relic), base, false, 99_999_999),
    Err(RelicError::SealingInsufficientBalance(100_000_000))
  );
  assert_eq!(seal(Ok(relic), base, true, u128::MAX), Err(RelicError::SealingAlreadyExists(relic)));
  assert_eq!(seal(Ok(base), base, false, u128::MAX), Err(RelicError::SealingBaseToken));
  assert_eq!(
    seal(Err(RelicError::InvalidMetadata), base, false, u128::MAX),
    Err(RelicError::InvalidMetadata)
  );
}

#[test]
fn burned_inceptions_count_parents_that_are_the_inception() {
  let burned = BURNED_CHARM | 1;
  let inscriptions = vec![
    (burned, vec![7, 3, 7]),
    (0u16, vec![7]),
    (burned, vec![]),
    (burned, vec![5]),
  ];
  assert_eq!(count_burned_inceptions(&inscriptions, Some(7), false), 2);
  assert_eq!(count_burned_inceptions(&inscriptions, None, false), 0);
  assert_eq!(count_burned_inceptions(&inscriptions, Some(5), false), 1);
  assert_eq!(count_burned_inceptions(&inscriptions, None, true), 3);
  assert_eq!(count_burned_inceptions(&[], Some(7), true), 0);
}

fn base_entry(mints: u128) -> RelicEntry {
  RelicEntry {
    mint_terms: Some(MintTerms {
      amount: Some(654205000000),
      cap: Some(21_000),
      price: Some(PriceModel::Fixed(0)),
      ..Default::default()
    }),
    state: RelicState { mints, ..Default::default() },
    ..RelicEntry::default()
  }
}

#[test]
fn base_token_is_minted_once_per_burned_inception() {
  assert_eq!(mint_base_token(base_entry(4), 0), None);
  let (entry, amount) = mint_base_token(base_entry(4), 2).unwrap();
  assert_eq!(amount, 2 * 654205000000);
  assert_eq!(entry.state.mints, 6);
  assert_eq!(entry.mint_terms, base_entry(4).mint_terms);
}

#[test]
fn enshrine_takes_the_first_sealing() {
  let a = name("FIRST•RELIC");
  let b = SpacedRelic::new(Relic(99), 0);
  assert_eq!(enshrine_relic(&[], 840_000, 5), Err(RelicError::InscriptionMissing));
  assert_eq!(enshrine_relic(&[None, None], 840_000, 5), Err(RelicError::SealingNotFound));
  assert_eq!(
    enshrine_relic(&[None, Some((a, 3, false)), Some((b, 4, true))], 840_000, 5),
    Ok((RelicId { block: 840_000, tx: 5 }, 1))
  );
  assert_eq!(
    enshrine_relic(&[Some((b, 4, true)), Some((a, 3, false))], 840_000, 5),
    Err(RelicError::RelicAlreadyEnshrined)
  );
}
