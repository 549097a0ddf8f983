use bitcoin::blockdata::locktime::absolute::LockTime;
use bitcoin::opcodes;
use bitcoin::script::{self, PushBytes};
use bitcoin::transaction::Version;
use bitcoin::{Amount, OutPoint, ScriptBuf, Sequence, Transaction, TxIn, TxOut, Witness};
use ordinals::varint;
use relics::keepsake::Payload;
use relics::{
    BoostTerms, Enshrining, Flag, Keepsake, MintTerms, MultiMint, PriceModel, RelicArtifact,
    RelicCenotaph, RelicFlaw, RelicId, Swap, Tag, Transfer,
};

const MAGIC_NUMBER: opcodes::Opcode = opcodes::all::OP_PUSHNUM_15;

fn default<T: Default>() -> T {
    Default::default()
}

fn library_tx(tx: &Transaction) -> relics::Transaction {
    relics::Transaction {
        output: tx
            .output
            .iter()
            .map(|o| relics::TxOut { script_pubkey: o.script_pubkey.to_bytes() })
            .collect(),
    }
}

fn decipher_tx(tx: &Transaction) -> Option<RelicArtifact> {
    Keepsake::decipher(&library_tx(tx))
}

fn payload_tx(tx: &Transaction) -> Option<Payload> {
    Keepsake::payload(&library_tx(tx))
}

trait EncipherScript {
    fn encipher_script(&self) -> ScriptBuf;
}

impl EncipherScript for Keepsake {
    fn encipher_script(&self) -> ScriptBuf {
        ScriptBuf::from_bytes(self.encipher())
    }
}

fn relic_id(tx: u32) -> RelicId {
  RelicId { block: 1, tx }
}

fn relic_id_with_block(block: u64, tx: u32) -> RelicId {
  RelicId { block, tx }
}

fn decipher(integers: &[u128]) -> RelicArtifact {
  let payload = payload(integers);

  let payload: &PushBytes = payload.as_slice().try_into().unwrap();

  decipher_tx(&Transaction {
    input: Vec::new(),
    output: vec![TxOut {
      script_pubkey: script::Builder::new()
        .push_opcode(opcodes::all::OP_RETURN)
        .push_opcode(MAGIC_NUMBER)
        .push_slice(payload)
        .into_script(),
      value: Amount::ZERO,
    }],
    lock_time: LockTime::ZERO,
    version: Version(2),
  })
  .unwrap()
}

fn payload(integers: &[u128]) -> Vec<u8> {
  let mut payload = Vec::new();

  for integer in integers {
    payload.extend(varint::encode(*integer));
  }

  payload
}

#[test]
fn decipher_returns_none_if_first_opcode_is_malformed() {
  assert_eq!(
    decipher_tx(&Transaction {
      input: Vec::new(),
      output: vec![TxOut {
        script_pubkey: ScriptBuf::from_bytes(vec![opcodes::all::OP_PUSHBYTES_4.to_u8()]),
        value: Amount::ZERO,
      }],
      lock_time: LockTime::ZERO,
      version: Version(2),
    }),
    None,
  );
}

#[test]
fn deciphering_transaction_with_no_outputs_returns_none() {
  assert_eq!(
    decipher_tx(&Transaction {
      input: Vec::new(),
      output: Vec::new(),
      lock_time: LockTime::ZERO,
      version: Version(2),
    }),
    None,
  );
}

#[test]
fn deciphering_transaction_with_non_op_return_output_returns_none() {
  assert_eq!(
    decipher_tx(&Transaction {
      input: Vec::new(),
      output: vec![TxOut {
        script_pubkey: script::Builder::new().push_slice([]).into_script(),
        value: Amount::ZERO
      }],
      lock_time: LockTime::ZERO,
      version: Version(2),
    }),
    None,
  );
}

#[test]
fn deciphering_transaction_with_bare_op_return_returns_none() {
  assert_eq!(
    decipher_tx(&Transaction {
      input: Vec::new(),
      output: vec![TxOut {
        script_pubkey: script::Builder::new()
          .push_opcode(opcodes::all::OP_RETURN)
          .into_script(),
        value: Amount::ZERO
      }],
      lock_time: LockTime::ZERO,
      version: Version(2),
    }),
    None,
  );
}

#[test]
fn deciphering_transaction_with_non_matching_op_return_returns_none() {
  assert_eq!(
    decipher_tx(&Transaction {
      input: Vec::new(),
      output: vec![TxOut {
        script_pubkey: script::Builder::new()
          .push_opcode(opcodes::all::OP_RETURN)
          .push_slice(b"FOOO")
          .into_script(),
        value: Amount::ZERO
      }],
      lock_time: LockTime::ZERO,
      version: Version(2),
    }),
    None,
  );
}

#[test]
fn deciphering_valid_runestone_with_invalid_script_postfix_returns_invalid_payload() {
  let mut script_pubkey = script::Builder::new()
    .push_opcode(opcodes::all::OP_RETURN)
    .push_opcode(MAGIC_NUMBER)
    .into_script()
    .into_bytes();

  script_pubkey.push(opcodes::all::OP_PUSHBYTES_4.to_u8());

  assert_eq!(
    payload_tx(&Transaction {
      input: Vec::new(),
      output: vec![TxOut {
        script_pubkey: ScriptBuf::from_bytes(script_pubkey),
        value: Amount::ZERO,
      }],
      lock_time: LockTime::ZERO,
      version: Version(2),
    }),
    Some(Payload::Invalid(RelicFlaw::InvalidScript))
  );
}

#[test]
fn deciphering_runestone_with_truncated_varint_succeeds() {
  decipher_tx(&Transaction {
    input: Vec::new(),
    output: vec![TxOut {
      script_pubkey: script::Builder::new()
        .push_opcode(opcodes::all::OP_RETURN)
        .push_opcode(MAGIC_NUMBER)
        .push_slice([128])
        .into_script(),
      value: Amount::ZERO,
    }],
    lock_time: LockTime::ZERO,
    version: Version(2),
  })
  .unwrap();
}

#[test]
fn outputs_with_non_pushdata_opcodes_are_cenotaph() {
  assert_eq!(
    decipher_tx(&Transaction {
      input: Vec::new(),
      output: vec![
        TxOut {
          script_pubkey: script::Builder::new()
            .push_opcode(opcodes::all::OP_RETURN)
            .push_opcode(MAGIC_NUMBER)
            .push_opcode(opcodes::all::OP_VERIFY)
            .push_slice([0])
            .push_slice::<&PushBytes>(varint::encode(1).as_slice().try_into().unwrap())
            .push_slice::<&PushBytes>(varint::encode(1).as_slice().try_into().unwrap())
            .push_slice([2, 0])
            .into_script(),
          value: Amount::ZERO,
        },
        TxOut {
          script_pubkey: script::Builder::new()
            .push_opcode(opcodes::all::OP_RETURN)
            .push_opcode(MAGIC_NUMBER)
            .push_slice([0])
            .push_slice::<&PushBytes>(varint::encode(1).as_slice().try_into().unwrap())
            .push_slice::<&PushBytes>(varint::encode(2).as_slice().try_into().unwrap())
            .push_slice([3, 0])
            .into_script(),
          value: Amount::ZERO,
        },
      ],
      lock_time: LockTime::ZERO,
      version: Version(2),
    })
    .unwrap(),
    RelicArtifact::Cenotaph(RelicCenotaph {
      flaw: Some(RelicFlaw::Opcode),
    }),
  );
}

#[test]
fn pushnum_opcodes_in_runestone_produce_cenotaph() {
  assert_eq!(
    decipher_tx(&Transaction {
      input: Vec::new(),
      output: vec![TxOut {
        script_pubkey: script::Builder::new()
          .push_opcode(opcodes::all::OP_RETURN)
          .push_opcode(MAGIC_NUMBER)
          .push_opcode(opcodes::all::OP_PUSHNUM_1)
          .into_script(),
        value: Amount::ZERO,
      },],
      lock_time: LockTime::ZERO,
      version: Version(2),
    })
    .unwrap(),
    RelicArtifact::Cenotaph(RelicCenotaph {
      flaw: Some(RelicFlaw::Opcode),
    }),
  );
}

#[test]
fn deciphering_empty_runestone_is_successful() {
  assert_eq!(
    decipher_tx(&Transaction {
      input: Vec::new(),
      output: vec![TxOut {
        script_pubkey: script::Builder::new()
          .push_opcode(opcodes::all::OP_RETURN)
          .push_opcode(MAGIC_NUMBER)
          .into_script(),
        value: Amount::ZERO
      }],
      lock_time: LockTime::ZERO,
      version: Version(2),
    })
    .unwrap(),
    RelicArtifact::Keepsake(Keepsake::default()),
  );
}

#[test]
fn invalid_input_scripts_are_skipped_when_searching_for_runestone() {
  let payload = payload(&[Tag::Pointer.into(), 1]);

  let payload: &PushBytes = payload.as_slice().try_into().unwrap();

  let script_pubkey = vec![
    opcodes::all::OP_RETURN.to_u8(),
    opcodes::all::OP_PUSHBYTES_9.to_u8(),
    MAGIC_NUMBER.to_u8(),
    opcodes::all::OP_PUSHBYTES_4.to_u8(),
  ];

  assert_eq!(
    decipher_tx(&Transaction {
      input: Vec::new(),
      output: vec![
        TxOut {
          script_pubkey: ScriptBuf::from_bytes(script_pubkey),
          value: Amount::ZERO,
        },
        TxOut {
          script_pubkey: script::Builder::new()
            .push_opcode(opcodes::all::OP_RETURN)
            .push_opcode(MAGIC_NUMBER)
            .push_slice(payload)
            .into_script(),
          value: Amount::ZERO,
        },
      ],
      lock_time: LockTime::ZERO,
      version: Version(2),
    })
    .unwrap(),
    RelicArtifact::Keepsake(Keepsake {
      pointer: Some(1),
      ..default()
    }),
  );
}

#[test]
fn deciphering_non_empty_runestone_is_successful() {
  assert_eq!(
    decipher(&[Tag::Body.into(), 1, 1, 2, 0]),
    RelicArtifact::Keepsake(Keepsake {
      transfers: vec![Transfer {
        id: relic_id(1),
        amount: 2,
        output: 0,
      }],
      ..default()
    }),
  );
}

#[test]
fn valid_boost_terms_create_keepsake() {
  let valid_boost = BoostTerms {
    rare_chance: Some(5000),
    rare_multiplier_cap: Some(10),
    ultra_rare_chance: Some(1000),
    ultra_rare_multiplier_cap: Some(20),
  };

  let enshrining = Enshrining {
    boost_terms: Some(valid_boost),
    mint_terms: Some(MintTerms {
      amount: Some(100),
      cap: Some(100_000),
      price: Some(PriceModel::Fixed(1)),
      ..default()
    }),
    ..default()
  };

  let keepsake = Keepsake {
    transfers: Vec::new(),
    enshrining: Some(enshrining),
    ..default()
  };

  let script = keepsake.encipher_script();
  let decoded = decipher_tx(&Transaction {
    input: Vec::new(),
    output: vec![TxOut {
      script_pubkey: script,
      value: Amount::ZERO,
    }],
    lock_time: LockTime::ZERO,
    version: Version(2),
  })
  .unwrap();

  assert_eq!(decoded, RelicArtifact::Keepsake(keepsake));
}

#[test]
fn invalid_boost_term_chances_create_cenotaph() {
  let invalid_boost = BoostTerms {
    rare_chance: Some(1000),
    rare_multiplier_cap: Some(10),
    ultra_rare_chance: Some(2000),
    ultra_rare_multiplier_cap: Some(20),
  };

  let invalid_enshrining = Enshrining {
    boost_terms: Some(invalid_boost),
    mint_terms: Some(MintTerms {
      amount: Some(100),
      cap: Some(100_000),
      price: Some(PriceModel::Fixed(1)),
      ..default()
    }),
    ..default()
  };

  let invalid_keepsake = Keepsake {
    transfers: Vec::new(),
    enshrining: Some(invalid_enshrining),
    ..default()
  };

  let script = invalid_keepsake.encipher_script();
  let decoded = decipher_tx(&Transaction {
    input: Vec::new(),
    output: vec![TxOut {
      script_pubkey: script,
      value: Amount::ZERO,
    }],
    lock_time: LockTime::ZERO,
    version: Version(2),
  })
  .unwrap();

  assert_eq!(
    decoded,
    RelicArtifact::Cenotaph(RelicCenotaph {
      flaw: Some(RelicFlaw::InvalidEnshriningBoostChanceOrder),
    })
  );
}

#[test]
fn valid_multimint_creates_keepsake() {
  let keepsake = Keepsake {
    mint: Some(MultiMint {
      count: 5,
      base_limit: 1000,
      is_unmint: false,
      relic: relic_id(42),
    }),
    ..default()
  };

  let script = keepsake.encipher_script();
  let decoded = decipher_tx(&Transaction {
    input: Vec::new(),
    output: vec![TxOut {
      script_pubkey: script,
      value: Amount::ZERO,
    }],
    lock_time: LockTime::ZERO,
    version: Version(2),
  })
  .unwrap();

  assert_eq!(decoded, RelicArtifact::Keepsake(keepsake));
}

#[test]
fn valid_multimint_with_max_mints_creates_keepsake() {
  let max_mints_keepsake = Keepsake {
    mint: Some(MultiMint {
      count: u8::MAX,
      base_limit: 1000000,
      is_unmint: false,
      relic: relic_id(42),
    }),
    ..default()
  };

  let script = max_mints_keepsake.encipher_script();
  let decoded = decipher_tx(&Transaction {
    input: Vec::new(),
    output: vec![TxOut {
      script_pubkey: script,
      value: Amount::ZERO,
    }],
    lock_time: LockTime::ZERO,
    version: Version(2),
  })
  .unwrap();

  assert_eq!(decoded, RelicArtifact::Keepsake(max_mints_keepsake));
}

#[test]
fn valid_multimint_with_unmint_creates_keepsake() {
  let unmint_keepsake = Keepsake {
    mint: Some(MultiMint {
      count: 3,
      base_limit: 500,
      is_unmint: true,
      relic: relic_id(42),
    }),
    ..default()
  };

  let script = unmint_keepsake.encipher_script();
  let decoded = decipher_tx(&Transaction {
    input: Vec::new(),
    output: vec![TxOut {
      script_pubkey: script,
      value: Amount::ZERO,
    }],
    lock_time: LockTime::ZERO,
    version: Version(2),
  })
  .unwrap();

  assert_eq!(decoded, RelicArtifact::Keepsake(unmint_keepsake));
}

#[test]
fn invalid_boost_term_multipliers_create_cenotaph() {
  let invalid_multipliers = BoostTerms {
    rare_chance: Some(5000),
    rare_multiplier_cap: Some(30),
    ultra_rare_chance: Some(1000),
    ultra_rare_multiplier_cap: Some(20),
  };

  let invalid_multiplier_enshrining = Enshrining {
    boost_terms: Some(invalid_multipliers),
    mint_terms: Some(MintTerms {
      amount: Some(100),
      cap: Some(100_000),
      price: Some(PriceModel::Fixed(1)),
      ..default()
    }),
    ..default()
  };

  let invalid_multiplier_keepsake = Keepsake {
    transfers: Vec::new(),
    enshrining: Some(invalid_multiplier_enshrining),
    ..default()
  };

  let script = invalid_multiplier_keepsake.encipher_script();
  let decoded = decipher_tx(&Transaction {
    input: Vec::new(),
    output: vec![TxOut {
      script_pubkey: script,
      value: Amount::ZERO,
    }],
    lock_time: LockTime::ZERO,
    version: Version(2),
  })
  .unwrap();

  assert_eq!(
    decoded,
    RelicArtifact::Cenotaph(RelicCenotaph {
      flaw: Some(RelicFlaw::InvalidEnshriningBoostMultiplierOrder),
    })
  );
}

#[test]
fn decipher_enshrining() {
  assert_eq!(
    decipher(&[
      Tag::Flags.into(),
      Flag::Enshrining.mask() | Flag::MintTerms.mask(),
      Tag::Symbol.into(),
      'R'.into(),
      Tag::Amount.into(),
      100,
      Tag::Cap.into(),
      100_000,
      Tag::Price.into(),
      1,
      Tag::Body.into(),
      1,
      1,
      2,
      0,
    ]),
    RelicArtifact::Keepsake(Keepsake {
      transfers: vec![Transfer {
        id: relic_id(1),
        amount: 2,
        output: 0,
      }],
      enshrining: Some(Enshrining {
        symbol: Some('R'),
        mint_terms: Some(MintTerms {
          amount: Some(100),
          cap: Some(100_000),
          price: Some(PriceModel::Fixed(1)),
          ..default()
        }),
        ..default()
      }),
      ..default()
    }),
  );
}

#[test]
fn recognized_fields_without_flag_produces_cenotaph() {
  fn case(integers: &[u128]) {
    assert_eq!(
      decipher(integers),
      RelicArtifact::Cenotaph(RelicCenotaph {
        flaw: Some(RelicFlaw::UnrecognizedEvenTag),
      }),
    );
  }

  case(&[Tag::Seed.into(), 0]);
  case(&[Tag::Amount.into(), 0]);
  case(&[Tag::Cap.into(), 0]);
  case(&[Tag::Price.into(), 0]);
  case(&[Tag::SwapInput.into(), 0]);
  case(&[Tag::SwapOutput.into(), 0]);
  case(&[Tag::SwapInputAmount.into(), 0]);
  case(&[Tag::SwapOutputAmount.into(), 0]);
  case(&[Tag::MultiMintCount.into(), 0]);
  case(&[Tag::MultiMintBaseLimit.into(), 0]);
  case(&[Tag::MultiMintRelic.into(), 0]);
  case(&[Tag::MultiMintIsUnmint.into(), 0]);

  // case(&[Tag::Flags.into(), Flag::Enshrining.into(), Tag::Cap.into(), 0]);
  // case(&[
  //   Tag::Flags.into(),
  //   Flag::Enshrining.into(),
  //   Tag::Amount.into(),
  //   0,
  // ]);
  // case(&[
  //   Tag::Flags.into(),
  //   Flag::Enshrining.into(),
  //   Tag::OffsetStart.into(),
  //   0,
  // ]);
  // case(&[
  //   Tag::Flags.into(),
  //   Flag::Enshrining.into(),
  //   Tag::OffsetEnd.into(),
  //   0,
  // ]);
  // case(&[
  //   Tag::Flags.into(),
  //   Flag::Enshrining.into(),
  //   Tag::HeightStart.into(),
  //   0,
  // ]);
  // case(&[
  //   Tag::Flags.into(),
  //   Flag::Enshrining.into(),
  //   Tag::HeightEnd.into(),
  //   0,
  // ]);
}

// #[test]
// fn decipher_etching_with_term() {
//   assert_eq!(
//     decipher(&[
//       Tag::Flags.into(),
//       Flag::Enshrining.mask() | Flag::Terms.mask(),
//       Tag::OffsetEnd.into(),
//       4,
//       Tag::Body.into(),
//       1,
//       1,
//       2,
//       0
//     ]),
//     Artifact::Keepsake(Keepsake {
//       transfers: vec![Transfer {
//         id: relic_id(1),
//         amount: 2,
//         output: 0,
//       }],
//       enshrining: Some(Enshrining {
//         terms: Some(Terms {
//           offset: (None, Some(4)),
//           ..default()
//         }),
//         ..default()
//       }),
//       ..default()
//     }),
//   );
// }

// #[test]
// fn decipher_etching_with_amount() {
//   assert_eq!(
//     decipher(&[
//       Tag::Flags.into(),
//       Flag::Enshrining.mask() | Flag::Terms.mask(),
//       Tag::Amount.into(),
//       4,
//       Tag::Body.into(),
//       1,
//       1,
//       2,
//       0
//     ]),
//     Artifact::Keepsake(Keepsake {
//       transfers: vec![Transfer {
//         id: relic_id(1),
//         amount: 2,
//         output: 0,
//       }],
//       enshrining: Some(Enshrining {
//         terms: Some(Terms {
//           amount: Some(4),
//           ..default()
//         }),
//         ..default()
//       }),
//       ..default()
//     }),
//   );
// }

#[test]
fn invalid_varint_produces_cenotaph() {
  assert_eq!(
    decipher_tx(&Transaction {
      input: Vec::new(),
      output: vec![TxOut {
        script_pubkey: script::Builder::new()
          .push_opcode(opcodes::all::OP_RETURN)
          .push_opcode(MAGIC_NUMBER)
          .push_slice([128])
          .into_script(),
        value: Amount::ZERO,
      }],
      lock_time: LockTime::ZERO,
      version: Version(2),
    })
    .unwrap(),
    RelicArtifact::Cenotaph(RelicCenotaph {
      flaw: Some(RelicFlaw::Varint),
    }),
  );
}

#[test]
fn duplicate_even_tags_produce_cenotaph() {
  assert_eq!(
    decipher(&[
      Tag::Flags.into(),
      Flag::Enshrining.mask() | Flag::MintTerms.mask(),
      Tag::Symbol.into(),
      'R'.into(),
      Tag::Amount.into(),
      100,
      Tag::Cap.into(),
      100_000,
      Tag::Price.into(),
      1,
      Tag::Body.into(),
      1,
      1,
      2,
      0,
    ]),
    RelicArtifact::Keepsake(Keepsake {
      transfers: vec![Transfer {
        id: relic_id(1),
        amount: 2,
        output: 0,
      }],
      enshrining: Some(Enshrining {
        symbol: Some('R'),
        mint_terms: Some(MintTerms {
          amount: Some(100),
          cap: Some(100_000),
          price: Some(PriceModel::Fixed(1)),
          ..default()
        }),
        ..default()
      }),
      ..default()
    }),
  );
}

#[test]
fn duplicate_odd_tags_are_ignored() {
  assert_eq!(
    decipher(&[
      Tag::Flags.into(),
      Flag::Enshrining.mask() | Flag::MintTerms.mask(),
      Tag::Symbol.into(),
      'a'.into(),
      Tag::Symbol.into(),
      'b'.into(),
      Tag::Amount.into(),
      100,
      Tag::Cap.into(),
      100_000,
      Tag::Price.into(),
      1,
      Tag::Body.into(),
      1,
      1,
      2,
      0,
    ]),
    RelicArtifact::Keepsake(Keepsake {
      transfers: vec![Transfer {
        id: relic_id(1),
        amount: 2,
        output: 0,
      }],
      enshrining: Some(Enshrining {
        symbol: Some('a'),
        mint_terms: Some(MintTerms {
          amount: Some(100),
          cap: Some(100_000),
          price: Some(PriceModel::Fixed(1)),
          ..default()
        }),
        ..default()
      }),
      ..default()
    })
  );
}

#[test]
fn unrecognized_odd_tag_is_ignored() {
  assert_eq!(
    decipher(&[Tag::Nop.into(), 100, Tag::Body.into(), 1, 1, 2, 0]),
    RelicArtifact::Keepsake(Keepsake {
      transfers: vec![Transfer {
        id: relic_id(1),
        amount: 2,
        output: 0,
      }],
      ..default()
    }),
  );
}

#[test]
fn runestone_with_unrecognized_even_tag_is_cenotaph() {
  assert_eq!(
    decipher(&[Tag::Cenotaph.into(), 0, Tag::Body.into(), 1, 1, 2, 0]),
    RelicArtifact::Cenotaph(RelicCenotaph {
      flaw: Some(RelicFlaw::UnrecognizedEvenTag),
    }),
  );
}

#[test]
fn runestone_with_unrecognized_flag_is_cenotaph() {
  assert_eq!(
    decipher(&[
      Tag::Flags.into(),
      Flag::Cenotaph.mask(),
      Tag::Body.into(),
      1,
      1,
      2,
      0
    ]),
    RelicArtifact::Cenotaph(RelicCenotaph {
      flaw: Some(RelicFlaw::UnrecognizedFlag),
    }),
  );
}

#[test]
fn runestone_with_edict_id_with_zero_block_and_nonzero_tx_is_cenotaph() {
  assert_eq!(
    decipher(&[Tag::Body.into(), 0, 1, 2, 0, 0, 0]),
    RelicArtifact::Cenotaph(RelicCenotaph {
      flaw: Some(RelicFlaw::TransferRelicId),
    }),
  );
}

#[test]
fn runestone_with_overflowing_edict_id_delta_is_cenotaph() {
  assert_eq!(
    decipher(&[Tag::Body.into(), 1, 0, 0, 0, u64::MAX.into(), 0, 0, 0]),
    RelicArtifact::Cenotaph(RelicCenotaph {
      flaw: Some(RelicFlaw::TransferRelicId),
    }),
  );

  assert_eq!(
    decipher(&[Tag::Body.into(), 1, 1, 0, 0, 0, u64::MAX.into(), 0, 0,]),
    RelicArtifact::Cenotaph(RelicCenotaph {
      flaw: Some(RelicFlaw::TransferRelicId),
    }),
  );
}

#[test]
fn runestone_with_output_over_max_is_cenotaph() {
  assert_eq!(
    decipher(&[Tag::Body.into(), 1, 1, 2, 2, 0, 0]),
    RelicArtifact::Cenotaph(RelicCenotaph {
      flaw: Some(RelicFlaw::TransferOutput),
    }),
  );
}

#[test]
fn tag_with_no_value_is_cenotaph() {
  assert_eq!(
    decipher(&[Tag::Flags.into(), 1, Tag::Flags.into()]),
    RelicArtifact::Cenotaph(RelicCenotaph {
      flaw: Some(RelicFlaw::TruncatedField),
    }),
  );
}

#[test]
fn trailing_integers_in_body_is_cenotaph() {
  let mut integers = vec![Tag::Body.into(), 1, 1, 2, 0];

  for i in 0..4 {
    assert_eq!(
      decipher(&integers),
      if i == 0 {
        RelicArtifact::Keepsake(Keepsake {
          transfers: vec![Transfer {
            id: relic_id(1),
            amount: 2,
            output: 0,
          }],
          ..default()
        })
      } else {
        RelicArtifact::Cenotaph(RelicCenotaph {
          flaw: Some(RelicFlaw::TrailingIntegers),
        })
      }
    );

    integers.push(0);
  }
}

// #[test]
// fn divisibility_above_max_is_ignored() {
//   assert_eq!(
//     decipher(&[
//       Tag::Flags.into(),
//       Flag::Enshrining.mask(),
//       Tag::Relic.into(),
//       4,
//       Tag::Divisibility.into(),
//       (Enshrining::MAX_DIVISIBILITY + 1).into(),
//       Tag::Body.into(),
//       1,
//       1,
//       2,
//       0,
//     ]),
//     RelicArtifact::Keepsake(Keepsake {
//       transfers: vec![Transfer {
//         id: relic_id(1),
//         amount: 2,
//         output: 0,
//       }],
//       enshrining: Some(Enshrining {
//         relic: Some(Relic(4)),
//         ..default()
//       }),
//       ..default()
//     }),
//   );
// }

#[test]
fn symbol_above_max_is_ignored() {
  assert_eq!(
    decipher(&[
      Tag::Flags.into(),
      Flag::Enshrining.mask() | Flag::MintTerms.mask(),
      Tag::Symbol.into(),
      u128::from(u32::from(char::MAX) + 1),
      Tag::Amount.into(),
      100,
      Tag::Cap.into(),
      100_000,
      Tag::Price.into(),
      1,
      Tag::Body.into(),
      1,
      1,
      2,
      0,
    ]),
    RelicArtifact::Keepsake(Keepsake {
      transfers: vec![Transfer {
        id: relic_id(1),
        amount: 2,
        output: 0,
      }],
      enshrining: Some(Enshrining {
        mint_terms: Some(MintTerms {
          amount: Some(100),
          cap: Some(100_000),
          price: Some(PriceModel::Fixed(1)),
          ..default()
        }),
        symbol: None,
        ..default()
      }),
      ..default()
    }),
  );
}

#[test]
fn decipher_etching_with_all_etching_tags() {
  assert_eq!(
    decipher(&[
      Tag::Flags.into(),
      Flag::Sealing.mask()
        | Flag::Enshrining.mask()
        | Flag::MintTerms.mask()
        | Flag::Swap.mask()
        | Flag::SwapExactInput.mask()
        | Flag::MultiMint.mask(),
      Tag::Symbol.into(),
      'a'.into(),
      Tag::Amount.into(),
      100,
      Tag::Cap.into(),
      16_800,
      Tag::PriceFormulaA.into(),
      29_276_332,
      Tag::PriceFormulaB.into(),
      6994,
      Tag::PriceFormulaC.into(),
      1,
      Tag::Seed.into(),
      300,
      Tag::MultiMintRelic.into(),
      5,
      Tag::MultiMintRelic.into(),
      0,
      Tag::MultiMintBaseLimit.into(),
      u128::MAX,
      Tag::MultiMintCount.into(),
      2,
      Tag::MultiMintIsUnmint.into(),
      0,
      Tag::SwapInput.into(),
      1,
      Tag::SwapInput.into(),
      42,
      Tag::SwapOutput.into(),
      1,
      Tag::SwapOutput.into(),
      43,
      Tag::SwapInputAmount.into(),
      123,
      Tag::SwapOutputAmount.into(),
      456,
      Tag::Pointer.into(),
      0,
      Tag::Claim.into(),
      0,
      Tag::Body.into(),
      1,
      1,
      2,
      0,
    ]),
    RelicArtifact::Keepsake(Keepsake {
      transfers: vec![Transfer {
        id: relic_id(1),
        amount: 2,
        output: 0,
      }],
      sealing: true,
      enshrining: Some(Enshrining {
        boost_terms: None,
        fee: None,
        symbol: Some('a'),
        mint_terms: Some(MintTerms {
          amount: Some(100),
          block_cap: None,
          cap: Some(16_800),
          max_unmints: None,
          price: Some(PriceModel::Formula {
            a: 29_276_332,
            b: 6994,
            c: 1,
          }),
          seed: Some(300),
          tx_cap: None,
        }),
        subsidy: None,
      }),
      mint: Some(MultiMint {
        count: 2,
        base_limit: u128::MAX,
        is_unmint: false,
        relic: relic_id_with_block(5, 0),
      }),
      swap: Some(Swap {
        input: Some(relic_id(42)),
        output: Some(relic_id(43)),
        input_amount: Some(123),
        output_amount: Some(456),
        is_exact_input: true,
      }),
      pointer: Some(0),
      claim: Some(0),
    }),
  );
}

#[test]
fn recognized_even_etching_fields_produce_cenotaph_if_etching_flag_is_not_set() {
  assert_eq!(
    decipher(&[Tag::Seed.into(), 4]),
    RelicArtifact::Cenotaph(RelicCenotaph {
      flaw: Some(RelicFlaw::UnrecognizedEvenTag),
    }),
  );
}

#[test]
fn decipher_etching_with_min_height_and_symbol() {
  assert_eq!(
    decipher(&[
      Tag::Flags.into(),
      Flag::Enshrining.mask() | Flag::MintTerms.mask(),
      Tag::Symbol.into(),
      'a'.into(),
      Tag::Amount.into(),
      100,
      Tag::Cap.into(),
      100_000,
      Tag::Price.into(),
      1,
      Tag::Body.into(),
      1,
      1,
      2,
      0,
    ]),
    RelicArtifact::Keepsake(Keepsake {
      transfers: vec![Transfer {
        id: relic_id(1),
        amount: 2,
        output: 0,
      }],
      enshrining: Some(Enshrining {
        symbol: Some('a'),
        mint_terms: Some(MintTerms {
          amount: Some(100),
          cap: Some(100_000),
          price: Some(PriceModel::Fixed(1)),
          ..default()
        }),
        ..default()
      }),
      ..default()
    }),
  );
}

#[test]
fn tag_values_are_not_parsed_as_tags() {
  assert_eq!(
    decipher(&[
      Tag::Flags.into(),
      Flag::Enshrining.mask() | Flag::MintTerms.mask(),
      Tag::Symbol.into(),
      Tag::Body.into(),
      Tag::Amount.into(),
      100,
      Tag::Cap.into(),
      100_000,
      Tag::Price.into(),
      1,
      Tag::Body.into(),
      1,
      1,
      2,
      0,
    ]),
    RelicArtifact::Keepsake(Keepsake {
      transfers: vec![Transfer {
        id: relic_id(1),
        amount: 2,
        output: 0,
      }],
      enshrining: Some(Enshrining {
        mint_terms: Some(MintTerms {
          amount: Some(100),
          cap: Some(100_000),
          price: Some(PriceModel::Fixed(1)),
          ..default()
        }),
        symbol: Some(0.into()),
        ..default()
      }),
      ..default()
    }),
  );
}

#[test]
fn runestone_may_contain_multiple_edicts() {
  assert_eq!(
    decipher(&[Tag::Body.into(), 1, 1, 2, 0, 0, 3, 5, 0]),
    RelicArtifact::Keepsake(Keepsake {
      transfers: vec![
        Transfer {
          id: relic_id(1),
          amount: 2,
          output: 0,
        },
        Transfer {
          id: relic_id(4),
          amount: 5,
          output: 0,
        },
      ],
      ..default()
    }),
  );
}

#[test]
fn runestones_with_invalid_rune_id_blocks_are_cenotaph() {
  assert_eq!(
    decipher(&[Tag::Body.into(), 1, 1, 2, 0, u128::MAX, 1, 0, 0]),
    RelicArtifact::Cenotaph(RelicCenotaph {
      flaw: Some(RelicFlaw::TransferRelicId),
    }),
  );
}

#[test]
fn runestones_with_invalid_rune_id_txs_are_cenotaph() {
  assert_eq!(
    decipher(&[Tag::Body.into(), 1, 1, 2, 0, 1, u128::MAX, 0, 0]),
    RelicArtifact::Cenotaph(RelicCenotaph {
      flaw: Some(RelicFlaw::TransferRelicId),
    }),
  );
}

#[test]
fn runestone_may_be_in_second_output() {
  let payload = payload(&[0, 1, 1, 2, 0]);

  let payload: &PushBytes = payload.as_slice().try_into().unwrap();

  assert_eq!(
    decipher_tx(&Transaction {
      input: Vec::new(),
      output: vec![
        TxOut {
          script_pubkey: ScriptBuf::new(),
          value: Amount::ZERO,
        },
        TxOut {
          script_pubkey: script::Builder::new()
            .push_opcode(opcodes::all::OP_RETURN)
            .push_opcode(MAGIC_NUMBER)
            .push_slice(payload)
            .into_script(),
          value: Amount::ZERO
        }
      ],
      lock_time: LockTime::ZERO,
      version: Version(2),
    })
    .unwrap(),
    RelicArtifact::Keepsake(Keepsake {
      transfers: vec![Transfer {
        id: relic_id(1),
        amount: 2,
        output: 0,
      }],
      ..default()
    }),
  );
}

#[test]
fn runestone_may_be_after_non_matching_op_return() {
  let payload = payload(&[0, 1, 1, 2, 0]);

  let payload: &PushBytes = payload.as_slice().try_into().unwrap();

  assert_eq!(
    decipher_tx(&Transaction {
      input: Vec::new(),
      output: vec![
        TxOut {
          script_pubkey: script::Builder::new()
            .push_opcode(opcodes::all::OP_RETURN)
            .push_slice(b"FOO")
            .into_script(),
          value: Amount::ZERO,
        },
        TxOut {
          script_pubkey: script::Builder::new()
            .push_opcode(opcodes::all::OP_RETURN)
            .push_opcode(MAGIC_NUMBER)
            .push_slice(payload)
            .into_script(),
          value: Amount::ZERO
        }
      ],
      lock_time: LockTime::ZERO,
      version: Version(2),
    })
    .unwrap(),
    RelicArtifact::Keepsake(Keepsake {
      transfers: vec![Transfer {
        id: relic_id(1),
        amount: 2,
        output: 0,
      }],
      ..default()
    })
  );
}

#[test]
fn enshrining_size() {
  fn case(transfers: Vec<Transfer>, enshrining: Option<Enshrining>, size: usize) {
    assert_eq!(
      Keepsake {
        transfers,
        enshrining,
        ..default()
      }
      .encipher_script()
      .len(),
      size
    );
  }

  case(
    Vec::new(),
    Some(Enshrining {
      boost_terms: Some(BoostTerms {
        rare_chance: Some(100_000),
        rare_multiplier_cap: Some(10),
        ultra_rare_chance: Some(10_000),
        ultra_rare_multiplier_cap: Some(100),
      }),
      fee: Some(10_000),
      symbol: Some('\u{10FFFF}'),
      mint_terms: Some(MintTerms {
        amount: Some(100_000_000_000_000_000),
        block_cap: Some(1000),
        cap: Some(100_000),
        max_unmints: Some(10_000),
        price: Some(PriceModel::Formula {
          a: 29276332,
          b: 6994,
          c: 1,
        }),
        seed: Some(200),
        tx_cap: Some(100),
      }),
      subsidy: Some(6_900_000_000_000),
    }),
    67,
  );
}

#[test]
fn encipher() {
  fn case(keepsake: Keepsake, expected: &[u128]) {
    let script_pubkey = keepsake.encipher_script();

    let transaction = Transaction {
      input: Vec::new(),
      output: vec![TxOut {
        script_pubkey,
        value: Amount::ZERO,
      }],
      lock_time: LockTime::ZERO,
      version: Version(2),
    };

    let Payload::Valid(payload) = payload_tx(&transaction).unwrap() else {
      panic!("invalid payload")
    };

    assert_eq!(Keepsake::integers(&payload).unwrap(), expected);

    let keepsake = {
      let mut transfers = keepsake.transfers;
      transfers.sort_by_key(|edict| edict.id);
      Keepsake {
        transfers,
        ..keepsake
      }
    };

    assert_eq!(
      decipher_tx(&transaction).unwrap(),
      RelicArtifact::Keepsake(keepsake),
    );
  }

  case(Keepsake::default(), &[]);

  case(
    Keepsake {
      transfers: vec![
        Transfer {
          id: RelicId::new(2, 3).unwrap(),
          amount: 1,
          output: 0,
        },
        Transfer {
          id: RelicId::new(5, 6).unwrap(),
          amount: 4,
          output: 1,
        },
      ],
      sealing: true,
      enshrining: Some(Enshrining {
        boost_terms: None,
        fee: None,
        symbol: Some('@'),
        mint_terms: Some(MintTerms {
          amount: Some(100),
          block_cap: None,
          cap: Some(100_000),
          max_unmints: None,
          price: Some(PriceModel::Fixed(321)),
          seed: Some(200),
          tx_cap: None,
        }),
        subsidy: None,
      }),
      mint: Some(MultiMint {
        count: 1,
        base_limit: 0,
        is_unmint: false,
        relic: relic_id(5),
      }),
      swap: Some(Swap {
        input: Some(relic_id(42)),
        output: Some(relic_id(43)),
        input_amount: Some(123),
        output_amount: Some(456),
        is_exact_input: true,
      }),
      pointer: Some(0),
      claim: Some(0),
    },
    &[
      Tag::Symbol.into(),
      '@'.into(),
      Tag::Amount.into(),
      100,
      Tag::Cap.into(),
      100_000,
      Tag::Price.into(),
      321,
      Tag::Seed.into(),
      200,
      Tag::MultiMintCount.into(),
      1,
      Tag::MultiMintBaseLimit.into(),
      0,
      Tag::MultiMintRelic.into(),
      1,
      Tag::MultiMintRelic.into(),
      5,
      Tag::SwapInput.into(),
      1,
      Tag::SwapInput.into(),
      42,
      Tag::SwapOutput.into(),
      1,
      Tag::SwapOutput.into(),
      43,
      Tag::SwapInputAmount.into(),
      123,
      Tag::SwapOutputAmount.into(),
      456,
      Tag::Flags.into(),
      Flag::Sealing.mask()
        | Flag::Enshrining.mask()
        | Flag::MintTerms.mask()
        | Flag::Swap.mask()
        | Flag::SwapExactInput.mask()
        | Flag::MultiMint.mask(),
      Tag::Pointer.into(),
      0,
      Tag::Claim.into(),
      0,
      Tag::Body.into(),
      2,
      3,
      1,
      0,
      3,
      6,
      4,
      1,
    ],
  );
}

#[test]
fn runestone_payload_is_chunked() {
  let script = Keepsake {
    transfers: vec![
      Transfer {
        id: RelicId::default(),
        amount: 0,
        output: 0,
      };
      129
    ],
    ..default()
  }
  .encipher_script();

  assert_eq!(script.instructions().count(), 3);

  let script = Keepsake {
    transfers: vec![
      Transfer {
        id: RelicId::default(),
        amount: 0,
        output: 0,
      };
      130
    ],
    ..default()
  }
  .encipher_script();

  assert_eq!(script.instructions().count(), 4);
}

#[test]
fn edict_output_greater_than_32_max_produces_cenotaph() {
  assert_eq!(
    decipher(&[Tag::Body.into(), 1, 1, 1, u128::from(u32::MAX) + 1, 0, 0]),
    RelicArtifact::Cenotaph(RelicCenotaph {
      flaw: Some(RelicFlaw::TransferOutput),
    }),
  );
}

#[test]
fn partial_swap_produces_cenotaph() {
  assert_eq!(
    decipher(&[Tag::SwapInput.into(), 1]),
    RelicArtifact::Cenotaph(RelicCenotaph {
      flaw: Some(RelicFlaw::UnrecognizedEvenTag),
    }),
  );
}

#[test]
fn invalid_swap_produces_cenotaph() {
  assert_eq!(
    decipher(&[Tag::SwapInput.into(), 0, Tag::SwapInput.into(), 1]),
    RelicArtifact::Cenotaph(RelicCenotaph {
      flaw: Some(RelicFlaw::UnrecognizedEvenTag),
    }),
  );
}

// #[test]
// fn invalid_deadline_produces_cenotaph() {
//   assert_eq!(
//     decipher(&[Tag::OffsetEnd.into(), u128::MAX]),
//     Artifact::Cenotaph(Cenotaph {
//       flaw: Some(Flaw::UnrecognizedEvenTag),
//     }),
//   );
// }

#[test]
fn invalid_default_output_produces_cenotaph() {
  assert_eq!(
    decipher(&[Tag::Pointer.into(), 1]),
    RelicArtifact::Cenotaph(RelicCenotaph {
      flaw: Some(RelicFlaw::UnrecognizedEvenTag),
    }),
  );
  assert_eq!(
    decipher(&[Tag::Pointer.into(), u128::MAX]),
    RelicArtifact::Cenotaph(RelicCenotaph {
      flaw: Some(RelicFlaw::UnrecognizedEvenTag),
    }),
  );
}

// #[test]
// fn invalid_divisibility_does_not_produce_cenotaph() {
//   assert_eq!(
//     decipher(&[Tag::Divisibility.into(), u128::MAX]),
//     RelicArtifact::Keepsake(default()),
//   );
// }

// #[test]
// fn min_and_max_runes_are_not_cenotaphs() {
//   assert_eq!(
//     decipher(&[
//       Tag::Flags.into(),
//       Flag::Enshrining.into(),
//       Tag::Relic.into(),
//       0
//     ]),
//     RelicArtifact::Keepsake(Keepsake {
//       enshrining: Some(Enshrining {
//         relic: Some(Relic(0)),
//         ..default()
//       }),
//       ..default()
//     }),
//   );
//   assert_eq!(
//     decipher(&[
//       Tag::Flags.into(),
//       Flag::Enshrining.into(),
//       Tag::Relic.into(),
//       u128::MAX
//     ]),
//     RelicArtifact::Keepsake(Keepsake {
//       enshrining: Some(Enshrining {
//         relic: Some(Relic(u128::MAX)),
//         ..default()
//       }),
//       ..default()
//     }),
//   );
// }

// #[test]
// fn invalid_spacers_does_not_produce_cenotaph() {
//   assert_eq!(
//     decipher(&[Tag::Spacers.into(), u128::MAX]),
//     RelicArtifact::Keepsake(default()),
//   );
// }

#[test]
fn invalid_symbol_does_not_produce_cenotaph() {
  assert_eq!(
    decipher(&[Tag::Symbol.into(), u128::MAX]),
    RelicArtifact::Keepsake(default()),
  );
}

// #[test]
// fn invalid_term_produces_cenotaph() {
//   assert_eq!(
//     decipher(&[Tag::OffsetEnd.into(), u128::MAX]),
//     Artifact::Cenotaph(Cenotaph {
//       flaw: Some(Flaw::UnrecognizedEvenTag),
//     }),
//   );
// }

// #[test]
// fn invalid_supply_produces_cenotaph() {
//   assert_eq!(
//     decipher(&[
//       Tag::Flags.into(),
//       Flag::Enshrining.mask() | Flag::Terms.mask(),
//       Tag::Cap.into(),
//       1,
//       Tag::Amount.into(),
//       u128::MAX
//     ]),
//     Artifact::Keepsake(Keepsake {
//       enshrining: Some(Enshrining {
//         terms: Some(Terms {
//           cap: Some(1),
//           amount: Some(u128::MAX),
//           height: (None, None),
//           offset: (None, None),
//         }),
//         ..default()
//       }),
//       ..default()
//     }),
//   );
//
//   assert_eq!(
//     decipher(&[
//       Tag::Flags.into(),
//       Flag::Enshrining.mask() | Flag::Terms.mask(),
//       Tag::Cap.into(),
//       2,
//       Tag::Amount.into(),
//       u128::MAX
//     ]),
//     Artifact::Cenotaph(Cenotaph {
//       flaw: Some(Flaw::SupplyOverflow),
//     }),
//   );
//
//   assert_eq!(
//     decipher(&[
//       Tag::Flags.into(),
//       Flag::Enshrining.mask() | Flag::Terms.mask(),
//       Tag::Cap.into(),
//       2,
//       Tag::Amount.into(),
//       u128::MAX / 2 + 1
//     ]),
//     Artifact::Cenotaph(Cenotaph {
//       flaw: Some(Flaw::SupplyOverflow),
//     }),
//   );
//
//   assert_eq!(
//     decipher(&[
//       Tag::Flags.into(),
//       Flag::Enshrining.mask() | Flag::Terms.mask(),
//       Tag::Premine.into(),
//       1,
//       Tag::Cap.into(),
//       1,
//       Tag::Amount.into(),
//       u128::MAX
//     ]),
//     Artifact::Cenotaph(Cenotaph {
//       flaw: Some(Flaw::SupplyOverflow),
//     }),
//   );
// }

#[test]
fn invalid_scripts_in_op_returns_without_magic_number_are_ignored() {
  assert_eq!(
    decipher_tx(&Transaction {
      version: Version(2),
      lock_time: LockTime::ZERO,
      input: vec![TxIn {
        previous_output: OutPoint::null(),
        script_sig: ScriptBuf::new(),
        sequence: Sequence::ENABLE_RBF_NO_LOCKTIME,
        witness: Witness::new(),
      }],
      output: vec![TxOut {
        script_pubkey: ScriptBuf::from(vec![
          opcodes::all::OP_RETURN.to_u8(),
          opcodes::all::OP_PUSHBYTES_4.to_u8(),
        ]),
        value: Amount::ZERO,
      }],
    }),
    None
  );

  assert_eq!(
    decipher_tx(&Transaction {
      version: Version(2),
      lock_time: LockTime::ZERO,
      input: vec![TxIn {
        previous_output: OutPoint::null(),
        script_sig: ScriptBuf::new(),
        sequence: Sequence::ENABLE_RBF_NO_LOCKTIME,
        witness: Witness::new(),
      }],
      output: vec![
        TxOut {
          script_pubkey: ScriptBuf::from(vec![
            opcodes::all::OP_RETURN.to_u8(),
            opcodes::all::OP_PUSHBYTES_4.to_u8(),
          ]),
          value: Amount::ZERO,
        },
        TxOut {
          script_pubkey: Keepsake::default().encipher_script(),
          value: Amount::ZERO,
        }
      ],
    })
    .unwrap(),
    RelicArtifact::Keepsake(Keepsake::default()),
  );
}

#[test]
fn invalid_scripts_in_op_returns_with_magic_number_produce_cenotaph() {
  assert_eq!(
    decipher_tx(&Transaction {
      version: Version(2),
      lock_time: LockTime::ZERO,
      input: vec![TxIn {
        previous_output: OutPoint::null(),
        script_sig: ScriptBuf::new(),
        sequence: Sequence::ENABLE_RBF_NO_LOCKTIME,
        witness: Witness::new(),
      }],
      output: vec![TxOut {
        script_pubkey: ScriptBuf::from(vec![
          opcodes::all::OP_RETURN.to_u8(),
          MAGIC_NUMBER.to_u8(),
          opcodes::all::OP_PUSHBYTES_4.to_u8(),
        ]),
        value: Amount::ZERO,
      }],
    })
    .unwrap(),
    RelicArtifact::Cenotaph(RelicCenotaph {
      flaw: Some(RelicFlaw::InvalidScript),
    }),
  );
}

#[test]
fn all_pushdata_opcodes_are_valid() {
  for i in 0..79 {
    let mut script_pubkey = Vec::new();

    script_pubkey.push(opcodes::all::OP_RETURN.to_u8());
    script_pubkey.push(MAGIC_NUMBER.to_u8());
    script_pubkey.push(i);

    match i {
      0..=75 => {
        for j in 0..i {
          script_pubkey.push(if j % 2 == 0 { 1 } else { 0 });
        }

        if i % 2 == 1 {
          script_pubkey.push(1);
          script_pubkey.push(1);
        }
      }
      76 => {
        script_pubkey.push(0);
      }
      77 => {
        script_pubkey.push(0);
        script_pubkey.push(0);
      }
      78 => {
        script_pubkey.push(0);
        script_pubkey.push(0);
        script_pubkey.push(0);
        script_pubkey.push(0);
      }
      _ => unreachable!(),
    }

    assert_eq!(
      decipher_tx(&Transaction {
        version: Version(2),
        lock_time: LockTime::ZERO,
        input: default(),
        output: vec![TxOut {
          script_pubkey: script_pubkey.into(),
          value: Amount::ZERO,
        },],
      })
      .unwrap(),
      RelicArtifact::Keepsake(Keepsake::default()),
    );
  }
}

#[test]
fn all_non_pushdata_opcodes_are_invalid() {
  for i in 79..=u8::MAX {
    assert_eq!(
      decipher_tx(&Transaction {
        version: Version(2),
        lock_time: LockTime::ZERO,
        input: default(),
        output: vec![TxOut {
          script_pubkey: vec![
            opcodes::all::OP_RETURN.to_u8(),
            MAGIC_NUMBER.to_u8(),
            i
          ]
          .into(),
          value: Amount::ZERO,
        },],
      })
      .unwrap(),
      RelicArtifact::Cenotaph(RelicCenotaph {
        flaw: Some(RelicFlaw::Opcode),
      }),
    );
  }
}

#[test]
fn subsidy_validation() {
  // Case 1: Valid - Subsidy > 0 and Price is Fixed(0)
  let valid_subsidy_keepsake = Keepsake {
    enshrining: Some(Enshrining {
      mint_terms: Some(MintTerms {
        amount: Some(100),
        cap: Some(100_000),
        price: Some(PriceModel::Fixed(0)),
        ..default()
      }),
      subsidy: Some(10_000),
      ..default()
    }),
    ..default()
  };
  let script1 = valid_subsidy_keepsake.encipher_script();
  let decoded1 = decipher_tx(&Transaction {
    input: Vec::new(),
    output: vec![TxOut {
      script_pubkey: script1,
      value: Amount::ZERO,
    }],
    lock_time: LockTime::ZERO,
    version: Version(2),
  })
  .unwrap();
  assert_eq!(decoded1, RelicArtifact::Keepsake(valid_subsidy_keepsake));

  // Case 2: Invalid - Subsidy > 0 but Price is Fixed(non-zero)
  let invalid_subsidy_price_fixed_keepsake = Keepsake {
    enshrining: Some(Enshrining {
      mint_terms: Some(MintTerms {
        amount: Some(100),
        cap: Some(100_000),
        price: Some(PriceModel::Fixed(1)), // Non-zero price
        ..default()
      }),
      subsidy: Some(10_000),
      ..default()
    }),
    ..default()
  };
  let script2 = invalid_subsidy_price_fixed_keepsake.encipher_script();
  let decoded2 = decipher_tx(&Transaction {
    input: Vec::new(),
    output: vec![TxOut {
      script_pubkey: script2,
      value: Amount::ZERO,
    }],
    lock_time: LockTime::ZERO,
    version: Version(2),
  })
  .unwrap();
  assert_eq!(
    decoded2,
    RelicArtifact::Cenotaph(RelicCenotaph {
      flaw: Some(RelicFlaw::InvalidEnshriningSubsidyRules),
    })
  );

  // Case 3: Invalid - Subsidy > 0 but Price is Formula
  let invalid_subsidy_price_formula_keepsake = Keepsake {
    enshrining: Some(Enshrining {
      mint_terms: Some(MintTerms {
        amount: Some(100),
        cap: Some(10),
        price: Some(PriceModel::Formula { a: 1, b: 1, c: 1 }), // Formula price
        ..default()
      }),
      subsidy: Some(10_000),
      ..default()
    }),
    ..default()
  };
  let script3 = invalid_subsidy_price_formula_keepsake.encipher_script();
  let decoded3 = decipher_tx(&Transaction {
    input: Vec::new(),
    output: vec![TxOut {
      script_pubkey: script3,
      value: Amount::ZERO,
    }],
    lock_time: LockTime::ZERO,
    version: Version(2),
  })
  .unwrap();
  assert_eq!(
    decoded3,
    RelicArtifact::Cenotaph(RelicCenotaph {
      flaw: Some(RelicFlaw::InvalidEnshriningSubsidyRules),
    })
  );

  // Case 4: Invalid - Subsidy is None but Price is Fixed(0)
  let invalid_no_subsidy_price_zero_keepsake = Keepsake {
    enshrining: Some(Enshrining {
      mint_terms: Some(MintTerms {
        amount: Some(100),
        cap: Some(100_000),
        price: Some(PriceModel::Fixed(0)), // Price is zero
        ..default()
      }),
      subsidy: None, // No subsidy
      ..default()
    }),
    ..default()
  };
  let script4 = invalid_no_subsidy_price_zero_keepsake.encipher_script();
  let decoded4 = decipher_tx(&Transaction {
    input: Vec::new(),
    output: vec![TxOut {
      script_pubkey: script4,
      value: Amount::ZERO,
    }],
    lock_time: LockTime::ZERO,
    version: Version(2),
  })
  .unwrap();
  assert_eq!(
    decoded4,
    RelicArtifact::Cenotaph(RelicCenotaph {
      flaw: Some(RelicFlaw::InvalidEnshriningSubsidyRules),
    })
  );

  // Case 5: Invalid - Subsidy is Some(0) and Price is Fixed(0)
  let invalid_zero_subsidy_price_zero_keepsake = Keepsake {
    enshrining: Some(Enshrining {
      mint_terms: Some(MintTerms {
        amount: Some(100),
        cap: Some(100_000),
        price: Some(PriceModel::Fixed(0)), // Price is zero
        ..default()
      }),
      subsidy: Some(0), // Zero subsidy
      ..default()
    }),
    ..default()
  };
  let script5 = invalid_zero_subsidy_price_zero_keepsake.encipher_script();
  let decoded5 = decipher_tx(&Transaction {
    input: Vec::new(),
    output: vec![TxOut {
      script_pubkey: script5,
      value: Amount::ZERO,
    }],
    lock_time: LockTime::ZERO,
    version: Version(2),
  })
  .unwrap();
  assert_eq!(
    decoded5,
    RelicArtifact::Cenotaph(RelicCenotaph {
      flaw: Some(RelicFlaw::InvalidEnshriningSubsidyRules),
    })
  );

  // Case 6: Valid - Subsidy is None and Price is Fixed(non-zero)
  let valid_no_subsidy_price_fixed_keepsake = Keepsake {
    enshrining: Some(Enshrining {
      mint_terms: Some(MintTerms {
        amount: Some(100),
        cap: Some(100_000),
        price: Some(PriceModel::Fixed(1)), // Non-zero price
        ..default()
      }),
      subsidy: None,
      ..default()
    }),
    ..default()
  };
  let script6 = valid_no_subsidy_price_fixed_keepsake.encipher_script();
  let decoded6 = decipher_tx(&Transaction {
    input: Vec::new(),
    output: vec![TxOut {
      script_pubkey: script6,
      value: Amount::ZERO,
    }],
    lock_time: LockTime::ZERO,
    version: Version(2),
  })
  .unwrap();
  assert_eq!(
    decoded6,
    RelicArtifact::Keepsake(valid_no_subsidy_price_fixed_keepsake)
  );
}

#[test]
fn boost_terms_with_max_unmints_creates_cenotaph() {
  let invalid_boost_with_unmints = BoostTerms {
    rare_chance: Some(5000),
    rare_multiplier_cap: Some(10),
    ultra_rare_chance: Some(1000),
    ultra_rare_multiplier_cap: Some(20),
  };

  let invalid_enshrining = Enshrining {
    boost_terms: Some(invalid_boost_with_unmints),
    mint_terms: Some(MintTerms {
      amount: Some(100),
      cap: Some(100_000),
      price: Some(PriceModel::Fixed(1)),
      max_unmints: Some(50), // This should cause the validation to fail
      ..default()
    }),
    ..default()
  };

  let invalid_keepsake = Keepsake {
    transfers: Vec::new(),
    enshrining: Some(invalid_enshrining),
    ..default()
  };

  let script = invalid_keepsake.encipher_script();
  let decoded = decipher_tx(&Transaction {
    input: Vec::new(),
    output: vec![TxOut {
      script_pubkey: script,
      value: Amount::ZERO,
    }],
    lock_time: LockTime::ZERO,
    version: Version(2),
  })
  .unwrap();

  assert_eq!(
    decoded,
    RelicArtifact::Cenotaph(RelicCenotaph {
      flaw: Some(RelicFlaw::InvalidEnshriningBoostNotUnmintable),
    })
  );
}
