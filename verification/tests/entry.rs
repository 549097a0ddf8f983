use relics::{
    BalanceDiff, MintTerms, Pool, PoolError, PoolSwap, PriceModel, Relic, RelicEntry, RelicError,
    RelicId, RelicState, SpacedRelic, SwapDirection, Txid,
};

#[test]
fn relic_entry() {
    let txid_bytes = [
        0x00, 0x01, 0x02, 0x03, 0x04, 0x05, 0x06, 0x07, 0x08, 0x09, 0x0A, 0x0B, 0x0C, 0x0D, 0x0E,
        0x0F, 0x10, 0x11, 0x12, 0x13, 0x14, 0x15, 0x16, 0x17, 0x18, 0x19, 0x1A, 0x1B, 0x1C, 0x1D,
        0x1E, 0x1F,
    ];
    let txid = Txid::from_slice(&txid_bytes).expect("Slice must be of correct length");
    let entry = RelicEntry {
        block: 12,
        enshrining: txid,
        fee: 0,
        number: 6,
        spaced_relic: SpacedRelic {
            relic: Relic(7),
            spacers: 8,
        },
        symbol: Some('a'),
        owner_sequence_number: Some(123),
        boost_terms: None,
        mint_terms: Some(MintTerms {
            amount: Some(4),
            block_cap: None,
            cap: Some(1),
            max_unmints: None,
            price: Some(PriceModel::Fixed(8)),
            seed: Some(22),
            tx_cap: None,
        }),
        state: RelicState {
            burned: 33,
            mints: 44,
            unmints: 17,
        },
        pool: Some(Pool {
            base_supply: 321,
            quote_supply: 123,
            fee_bps: 13,
            subsidy: 10_000,
        }),
        timestamp: 10,
    };

    let value = (
        12,
        (
            0x0F0E0D0C0B0A09080706050403020100,
            0x1F1E1D1C1B1A19181716151413121110,
        ),
        0,
        6,
        (7, 8),
        Some('a'),
        Some(123),
        None,
        Some((
            Some(4),
            None,
            Some(1),
            None,
            Some(1),
            Some(8),
            None,
            None,
            Some(22),
            None,
        )),
        (33, 44, 17),
        Some((321, 123, 13, 10_000)),
        10,
    );

    assert_eq!(entry.store(), value);
    assert_eq!(RelicEntry::load(value), entry);
}

#[test]
fn relic_id_entry() {
    assert_eq!(RelicId { block: 1, tx: 2 }.store(), (1, 2),);
    assert_eq!(RelicId { block: 1, tx: 2 }, RelicId::load((1, 2)),);
}

#[test]
fn mintable_default() {
    assert_eq!(
        RelicEntry::default().mintable(0, 1, 0),
        Err(RelicError::Unmintable)
    );
}

fn fixed_entry(price: u128, cap: u128, mints: u128) -> RelicEntry {
    RelicEntry {
        mint_terms: Some(MintTerms {
            amount: Some(1000),
            block_cap: None,
            cap: Some(cap),
            max_unmints: Some(10),
            price: Some(PriceModel::Fixed(price)),
            seed: Some(5000),
            tx_cap: Some(5),
        }),
        state: RelicState {
            burned: 0,
            mints,
            unmints: 0,
        },
        ..RelicEntry::default()
    }
}

#[test]
fn mintable_is_capped_by_remaining_mints() {
    let entry = fixed_entry(10, 5, 3);
    assert_eq!(entry.mintable(100, 4, 100), Ok(vec![(1000, 10), (1000, 10)]));
}

#[test]
fn mintable_errors() {
    let entry = fixed_entry(10, 5, 3);
    assert_eq!(entry.mintable(100, 6, 100), Err(RelicError::MaxMintPerTxExceeded(5)));
    assert_eq!(entry.mintable(100, 2, 19), Err(RelicError::MintBaseLimitExceeded(19, 20)));
    assert_eq!(entry.mintable(19, 2, 100), Err(RelicError::MintInsufficientBalance(20)));
    assert_eq!(fixed_entry(10, 5, 5).mintable(100, 1, 100), Err(RelicError::MintCap(5)));
    assert_eq!(fixed_entry(0, 5, 0).mintable(100, 2, 100), Err(RelicError::MaxMintPerTxExceeded(1)));
}

#[test]
fn mintable_formula_prices_each_mint() {
    let mut entry = fixed_entry(0, 100, 0);
    entry.mint_terms.as_mut().unwrap().price = Some(PriceModel::Formula { a: 100, b: 50, c: 1 });
    // price(x) = 100 - 50 / (1 + x)
    assert_eq!(entry.mintable(1000, 3, 1000), Ok(vec![(1000, 50), (1000, 75), (1000, 84)]));
}

#[test]
fn unmintable_refunds_last_mints_first() {
    let mut entry = fixed_entry(0, 100, 3);
    entry.mint_terms.as_mut().unwrap().price = Some(PriceModel::Formula { a: 100, b: 50, c: 1 });
    assert_eq!(entry.unmintable(5000, 2, 0), Ok(vec![(1000, 84), (1000, 75)]));
    assert_eq!(entry.unmintable(1999, 2, 0), Err(RelicError::MintInsufficientBalance(2000)));
    assert_eq!(entry.unmintable(5000, 2, 160), Err(RelicError::MintBaseLimitExceeded(160, 159)));
    assert_eq!(entry.unmintable(5000, 4, 0), Err(RelicError::NoMintsToUnmint));
}

#[test]
fn unmintable_refusals() {
    assert_eq!(RelicEntry::default().unmintable(0, 1, 0), Err(RelicError::Unmintable));
    let mut no_unmints = fixed_entry(10, 5, 3);
    no_unmints.mint_terms.as_mut().unwrap().max_unmints = None;
    assert_eq!(no_unmints.unmintable(10_000, 1, 0), Err(RelicError::UnmintNotAllowed));
    assert_eq!(fixed_entry(0, 5, 3).unmintable(10_000, 1, 0), Err(RelicError::UnmintNotAllowed));
    assert_eq!(fixed_entry(10, 5, 5).unmintable(10_000, 1, 0), Err(RelicError::UnmintNotAllowed));
    let mut used = fixed_entry(10, 5, 3);
    used.state.unmints = 10;
    assert_eq!(used.unmintable(10_000, 1, 0), Err(RelicError::UnmintNotAllowed));
    assert_eq!(fixed_entry(10, 5, 3).unmintable(10_000, 1, 0), Ok(vec![(1000, 10)]));
}

#[test]
fn supplies() {
    let mut entry = fixed_entry(10, 5, 3);
    assert!(!entry.is_free());
    assert_eq!(entry.max_supply(), 1000 * 5 + 5000);
    assert_eq!(entry.circulating_supply(), 3000);
    assert_eq!(entry.locked_base_supply(), 30);
    entry.state.burned = 100;
    assert_eq!(entry.circulating_supply(), 2900);
    entry.pool = Some(Pool { base_supply: 77, quote_supply: 4000, fee_bps: 10, subsidy: 0 });
    assert_eq!(entry.locked_base_supply(), 77);
    assert_eq!(entry.circulating_supply(), 3000 + 5000 - 4000 - 100);
    entry.pool = Some(Pool { base_supply: 0, quote_supply: 0, fee_bps: 10, subsidy: 9 });
    assert_eq!(entry.locked_base_supply(), 9);
}

#[test]
fn locked_base_supply_of_formula_mints() {
    let mut entry = fixed_entry(0, 100, 3);
    entry.mint_terms.as_mut().unwrap().price = Some(PriceModel::Formula { a: 100, b: 50, c: 1 });
    assert_eq!(entry.locked_base_supply(), 50 + 75 + 84);
}

fn diff(input: u128, output: u128) -> BalanceDiff {
    BalanceDiff { direction: SwapDirection::BaseToQuote, input, output, fee: 1 }
}

#[test]
fn swap_checks_pool_and_balance() {
    let request = PoolSwap::Input { direction: SwapDirection::BaseToQuote, input: 10, min_output: None };
    let entry = fixed_entry(10, 5, 5);
    assert_eq!(entry.swap(request, None, |_, _| Ok(diff(10, 20))), Err(RelicError::SwapNotAvailable));
    let mut pooled = entry;
    pooled.pool = Some(Pool { base_supply: 50, quote_supply: 5000, fee_bps: 100, subsidy: 0 });
    assert_eq!(pooled.swap(request, Some(100), |_, _| Ok(diff(10, 20))), Ok(diff(10, 20)));
    assert_eq!(
        pooled.swap(request, Some(9), |_, _| Ok(diff(10, 20))),
        Err(RelicError::SwapInsufficientBalance(10))
    );
    assert_eq!(
        pooled.swap(request, None, |_, _| Err(PoolError)),
        Err(RelicError::SwapFailed(PoolError))
    );
    let mut subsidized = pooled;
    subsidized.pool = Some(Pool { base_supply: 50, quote_supply: 5000, fee_bps: 100, subsidy: 1 });
    assert_eq!(subsidized.swap(request, None, |_, _| Ok(diff(10, 20))), Err(RelicError::SwapNotAvailable));
}

#[test]
fn txid_bytes_round_trip() {
    let bytes: Vec<u8> = (0u8..32).map(|b| b.wrapping_mul(37)).collect();
    let txid = Txid::from_slice(&bytes).unwrap();
    assert_eq!(txid.to_byte_array(), bytes);
    assert_eq!(Txid::from_slice(&bytes[..31]), None);
    assert_eq!(Txid::all_zeros().to_byte_array(), vec![0u8; 32]);
}

#[test]
fn mint_terms_store_and_load() {
    let terms = MintTerms {
        amount: Some(1),
        block_cap: Some(2),
        cap: Some(3),
        max_unmints: Some(4),
        price: Some(PriceModel::Formula { a: 5, b: 6, c: 7 }),
        seed: Some(8),
        tx_cap: Some(9),
    };
    let value = terms.store();
    assert_eq!(value, (Some(1), Some(2), Some(3), Some(4), Some(2), Some(5), Some(6), Some(7), Some(8), Some(9)));
    assert_eq!(MintTerms::load(value), terms);
}

#[test]
fn unminting_right_after_minting_gives_the_mints_back_in_reverse() {
    let mut entry = fixed_entry(0, 100, 4);
    entry.mint_terms.as_mut().unwrap().price = Some(PriceModel::Formula { a: 100, b: 50, c: 1 });
    let minted = entry.mintable(1000, 3, 1000).unwrap();
    let mut after = entry;
    after.state.mints += minted.len() as u128;
    let mut reversed = minted.clone();
    reversed.reverse();
    assert_eq!(after.unmintable(3000, minted.len() as u8, 0), Ok(reversed));
}

#[test]
fn total_prices_add_over_consecutive_mints() {
    let model = PriceModel::Formula { a: 100, b: 50, c: 1 };
    for (s, m, n) in [(0u128, 2u8, 3u8), (5, 0, 4), (7, 1, 1)] {
        let u = model.compute_total_price(s, m).unwrap();
        let v = model.compute_total_price(s + m as u128, n).unwrap();
        assert_eq!(model.compute_total_price(s, m + n), Some(u + v));
    }
    assert_eq!(PriceModel::Fixed(9).compute_total_price(3, 0), Some(0));
    assert_eq!(PriceModel::Fixed(9).compute_total_price(3, 5), Some(45));
}
