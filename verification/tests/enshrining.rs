use relics::{BoostTerms, Enshrining, MintTerms, PriceModel, RelicFlaw};

#[test]
fn test_price_model_fixed() {
  let fixed_price = PriceModel::Fixed(1000);
  assert_eq!(fixed_price.compute_price(0), Some(1000));
  assert_eq!(fixed_price.compute_price(1), Some(1000));
  assert_eq!(fixed_price.compute_price(100), Some(1000));
}

#[test]
#[allow(clippy::identity_op)]
fn test_price_model_formula() {
  // price = a - b / (mints + c)
  let mut formula_price = PriceModel::Formula { a: 10, b: 5, c: 2 };
  assert_eq!(formula_price.compute_price(0), Some(10 - 5 / (0 + 2)));
  assert_eq!(formula_price.compute_price(1), Some(10 - 5 / (1 + 2)));
  assert_eq!(formula_price.compute_price(2), Some(10 - 5 / (2 + 2)));
  assert_eq!(formula_price.compute_price(3), Some(10 - 5 / (3 + 2)));
  assert_eq!(formula_price.compute_price(8), Some(10 - 5 / (8 + 2)));
  assert_eq!(formula_price.compute_price(47), Some(10 - 5 / (47 + 2)));
  assert_eq!(formula_price.compute_price(999), Some(10 - 5 / (999 + 2)));

  formula_price = PriceModel::Formula {
    a: 1000,
    b: 500,
    c: 1,
  };

  assert_eq!(formula_price.compute_price(0), Some(1000 - 500 / (0 + 1)));
  assert_eq!(formula_price.compute_price(1), Some(1000 - 500 / (1 + 1)));
  assert_eq!(formula_price.compute_price(10), Some(1000 - 500 / (10 + 1)));
  assert_eq!(
    formula_price.compute_price(500),
    Some(1000 - 500 / (500 + 1))
  );
  assert_eq!(
    formula_price.compute_price(50_000),
    Some(1000 - 500 / (50_000 + 1))
  );
}

#[test]
fn test_price_model_formula_multi_mint() {
  let formula = PriceModel::Formula {
    a: 500,
    b: 1000,
    c: 1,
  };

  assert_eq!(formula.compute_total_price(0, 3), Some(167));
  assert_eq!(formula.compute_total_price(3, 2), Some(550));
  assert_eq!(formula.compute_total_price(10, 5), Some(2114));
  assert_eq!(formula.compute_total_price(100, 2), Some(982));
  assert_eq!(formula.compute_total_price(50000, 2), Some(1000));
}

#[test]
fn test_formula_with_starting_price_exact() {
  let formula = PriceModel::Formula {
    a: 10000,
    b: 50000,
    c: 10,
  };

  assert_eq!(formula.compute_price(0), Some(5000));
  assert_eq!(formula.compute_price(1), Some(5455));
  assert_eq!(formula.compute_price(2), Some(5834));
}

#[test]
fn test_zero_division_protection() {
  let div_zero_formula = PriceModel::Formula {
    a: 1000,
    b: 500,
    c: 0,
  };
  assert_eq!(div_zero_formula.compute_price(0), None);
  assert_eq!(div_zero_formula.compute_price(1), Some(500));
}

fn terms(cap: u128, amount: u128, price: PriceModel) -> MintTerms {
  MintTerms {
    amount: Some(amount),
    cap: Some(cap),
    price: Some(price),
    ..Default::default()
  }
}

fn valid_boost() -> BoostTerms {
  BoostTerms {
    rare_chance: Some(1000),
    rare_multiplier_cap: Some(10),
    ultra_rare_chance: Some(10),
    ultra_rare_multiplier_cap: Some(20),
  }
}

#[test]
fn fixed_total_price_is_price_times_count() {
  assert_eq!(PriceModel::Fixed(7).compute_total_price(123, 4), Some(28));
  assert_eq!(PriceModel::Fixed(u128::MAX).compute_total_price(0, 2), None);
  assert_eq!(PriceModel::Fixed(u128::MAX).compute_total_price(0, 1), Some(u128::MAX));
}

#[test]
fn formula_total_price_is_none_when_a_price_is_undefined() {
  let formula = PriceModel::Formula { a: 1000, b: 500, c: 0 };
  assert_eq!(formula.compute_total_price(0, 2), None);
  assert_eq!(formula.compute_total_price(1, 2), Some(500 + 750));
  assert_eq!(formula.compute_total_price(5, 0), Some(0));
}

#[test]
fn formula_price_at_index_overflow_is_none() {
  let formula = PriceModel::Formula { a: 1000, b: 500, c: 1 };
  assert_eq!(formula.compute_price(u128::MAX), None);
}

#[test]
fn mint_terms_prices_go_through_the_price_model() {
  let t = terms(10, 5, PriceModel::Formula { a: 10000, b: 50000, c: 10 });
  assert_eq!(t.compute_price(1), Some(5455));
  assert_eq!(t.compute_total_price(0, 2), Some(5000 + 5455));
  let no_price = MintTerms::default();
  assert_eq!(no_price.compute_price(1), None);
  assert_eq!(no_price.compute_total_price(0, 1), None);
}

#[test]
fn max_supply_uses_the_highest_boost() {
  let mut enshrining = Enshrining {
    mint_terms: Some(MintTerms {
      seed: Some(7),
      ..terms(100, 3, PriceModel::Fixed(1))
    }),
    ..Default::default()
  };
  assert_eq!(enshrining.max_supply(), Some(7 + 300));
  enshrining.boost_terms = Some(valid_boost());
  assert_eq!(enshrining.max_supply(), Some(7 + 300 * 20));
  enshrining.boost_terms = Some(BoostTerms {
    rare_multiplier_cap: Some(4),
    ..Default::default()
  });
  assert_eq!(enshrining.max_supply(), Some(7 + 300 * 4));
  assert_eq!(Enshrining::default().max_supply(), Some(0));
}

#[test]
fn max_supply_overflow_is_none() {
  let enshrining = Enshrining {
    mint_terms: Some(MintTerms {
      seed: Some(u128::MAX),
      ..terms(1, 1, PriceModel::Fixed(1))
    }),
    ..Default::default()
  };
  assert_eq!(enshrining.max_supply(), None);
}

#[test]
fn validate_accepts_well_formed_enshrinings() {
  let enshrining = Enshrining {
    mint_terms: Some(terms(100, 3, PriceModel::Fixed(1))),
    boost_terms: Some(valid_boost()),
    ..Default::default()
  };
  assert_eq!(enshrining.validate(), Ok(()));

  let formula = Enshrining {
    mint_terms: Some(terms(1000, 3, PriceModel::Formula { a: 100, b: 50, c: 1 })),
    ..Default::default()
  };
  assert_eq!(formula.validate(), Ok(()));

  let subsidized = Enshrining {
    subsidy: Some(5),
    mint_terms: Some(terms(10, 3, PriceModel::Fixed(0))),
    ..Default::default()
  };
  assert_eq!(subsidized.validate(), Ok(()));
}

#[test]
fn validate_reports_each_mint_terms_flaw() {
  let check = |t: MintTerms, flaw: RelicFlaw| {
    let enshrining = Enshrining {
      mint_terms: Some(t),
      ..Default::default()
    };
    assert_eq!(enshrining.validate(), Err(flaw));
  };
  assert_eq!(
    Enshrining::default().validate(),
    Err(RelicFlaw::InvalidEnshriningTermsMissingOrZeroCap)
  );
  check(
    MintTerms { cap: Some(0), ..terms(0, 1, PriceModel::Fixed(1)) },
    RelicFlaw::InvalidEnshriningTermsMissingOrZeroCap,
  );
  check(
    terms(u128::MAX, 2, PriceModel::Fixed(1)),
    RelicFlaw::InvalidEnshriningTermsAmountCapOverflow,
  );
  check(
    terms(u128::MAX, 1, PriceModel::Fixed(2)),
    RelicFlaw::InvalidEnshriningTermsFixedPriceCapOverflow,
  );
  check(
    terms(10, 1, PriceModel::Formula { a: 10, b: 50, c: 1 }),
    RelicFlaw::InvalidEnshriningTermsInvalidPriceFormula,
  );
  check(
    terms(10, 1, PriceModel::Formula { a: 10, b: 5, c: 0 }),
    RelicFlaw::InvalidEnshriningTermsInvalidPriceFormula,
  );
  check(
    terms(1_000_001, 1, PriceModel::Formula { a: 10, b: 5, c: 1 }),
    RelicFlaw::InvalidEnshriningTermsInvalidPriceFormula,
  );
  check(
    MintTerms { price: None, ..terms(10, 1, PriceModel::Fixed(1)) },
    RelicFlaw::InvalidEnshriningTermsMissingPrice,
  );
  check(
    MintTerms { block_cap: Some(11), ..terms(10, 1, PriceModel::Fixed(1)) },
    RelicFlaw::InvalidEnshriningTermsInvalidCapHierarchy,
  );
  check(
    MintTerms {
      block_cap: Some(5),
      tx_cap: Some(6),
      ..terms(10, 1, PriceModel::Fixed(1))
    },
    RelicFlaw::InvalidEnshriningTermsInvalidCapHierarchy,
  );
  check(
    MintTerms {
      seed: Some(u128::MAX),
      ..terms(10, 1, PriceModel::Fixed(1))
    },
    RelicFlaw::InvalidEnshriningMaxSupplyCalculation,
  );
}

#[test]
fn validate_reports_each_boost_flaw() {
  let check = |b: BoostTerms, amount: u128, flaw: RelicFlaw| {
    let enshrining = Enshrining {
      mint_terms: Some(terms(1, amount, PriceModel::Fixed(1))),
      boost_terms: Some(b),
      ..Default::default()
    };
    assert_eq!(enshrining.validate(), Err(flaw));
  };
  check(
    BoostTerms { rare_chance: None, ..valid_boost() },
    1,
    RelicFlaw::InvalidEnshriningBoostInvalidRareBoost,
  );
  check(
    BoostTerms { ultra_rare_multiplier_cap: None, ..valid_boost() },
    1,
    RelicFlaw::InvalidEnshriningBoostInvalidUltraRareBoost,
  );
  check(
    BoostTerms { rare_chance: Some(1_000_000), ..valid_boost() },
    1,
    RelicFlaw::InvalidEnshriningBoostInvalidRareChance,
  );
  check(
    BoostTerms { ultra_rare_chance: Some(1_000_000), ..valid_boost() },
    1,
    RelicFlaw::InvalidEnshriningBoostInvalidUltraRareChance,
  );
  check(
    BoostTerms { ultra_rare_chance: Some(1000), ..valid_boost() },
    1,
    RelicFlaw::InvalidEnshriningBoostChanceOrder,
  );
  check(
    BoostTerms { ultra_rare_multiplier_cap: Some(10), ..valid_boost() },
    1,
    RelicFlaw::InvalidEnshriningBoostMultiplierOrder,
  );
  check(
    valid_boost(),
    u128::MAX / 5,
    RelicFlaw::InvalidEnshriningBoostRareAmountOverflow,
  );
  check(
    valid_boost(),
    u128::MAX / 15,
    RelicFlaw::InvalidEnshriningBoostUltraRareAmountOverflow,
  );
  let unmintable = Enshrining {
    mint_terms: Some(MintTerms {
      max_unmints: Some(3),
      ..terms(1, 1, PriceModel::Fixed(1))
    }),
    boost_terms: Some(valid_boost()),
    ..Default::default()
  };
  assert_eq!(
    unmintable.validate(),
    Err(RelicFlaw::InvalidEnshriningBoostNotUnmintable)
  );
}

#[test]
fn validate_enforces_subsidy_rules() {
  let with = |subsidy: Option<u128>, price: PriceModel| Enshrining {
    subsidy,
    mint_terms: Some(terms(10, 1, price)),
    ..Default::default()
  };
  assert_eq!(
    with(Some(0), PriceModel::Fixed(0)).validate(),
    Err(RelicFlaw::InvalidEnshriningSubsidyRules)
  );
  assert_eq!(
    with(Some(5), PriceModel::Fixed(1)).validate(),
    Err(RelicFlaw::InvalidEnshriningSubsidyRules)
  );
  assert_eq!(
    with(Some(5), PriceModel::Formula { a: 10, b: 5, c: 1 }).validate(),
    Err(RelicFlaw::InvalidEnshriningSubsidyRules)
  );
  assert_eq!(
    with(None, PriceModel::Fixed(0)).validate(),
    Err(RelicFlaw::InvalidEnshriningSubsidyRules)
  );
}
