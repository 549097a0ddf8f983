use relics::relic_json::{
  amount, mint_terms, parse_json_to_relic, parse_relic_id, parse_u128, price, state, JsonError,
  JsonField, JsonValue,
};
use bitcoin::hashes::Hash as BitcoinHash;
use relics::{MintTerms, PriceModel, Relic, RelicId, RelicState, SpacedRelic, Txid};
use std::str::FromStr;

fn num(s: &str) -> JsonValue {
  JsonValue::Number(s.to_string())
}

fn text(s: &str) -> JsonValue {
  JsonValue::Text(s.to_string())
}

fn obj(members: Vec<(&str, JsonValue)>) -> JsonValue {
  JsonValue::Object(members.into_iter().map(|(k, v)| (k.to_string(), v)).collect())
}

fn record(fee: &str, extra: Vec<(&str, JsonValue)>) -> JsonValue {
  let mut members = vec![
    ("id", text("840000:3")),
    ("owner", text("abc")),
    ("block", num("840000")),
    ("enshrining", text("4a5e1e4baab89f3a32518a88c31bc87f618f76673e2cc77ab2127b7afdeda33b")),
    ("fee", num(fee)),
    ("number", num("7")),
    ("timestamp", num("1700000000")),
    ("mintable", JsonValue::Bool(true)),
    ("spaced_relic", text("A•B")),
    ("state", obj(vec![("burned", num("1")), ("mints", num("2")), ("unmints", num("3"))])),
    ("symbol", text("$")),
    ("owner_sequence_number", num("12")),
  ];
  members.extend(extra);
  obj(members)
}

#[test]
fn decimal_text_parses_as_str_parse_does() {
  assert_eq!(parse_u128("123"), Some(123));
  assert_eq!(parse_u128("+7"), Some(7));
  assert_eq!(parse_u128("007"), Some(7));
  assert_eq!(parse_u128("+"), None);
  assert_eq!(parse_u128(""), None);
  assert_eq!(parse_u128("-1"), None);
  assert_eq!(parse_u128("1.5"), None);
  assert_eq!(parse_u128("340282366920938463463374607431768211455"), Some(u128::MAX));
  assert_eq!(parse_u128("340282366920938463463374607431768211456"), None);
  for n in [0u128, 9, 10, 99, 12345678901234567890] {
    assert_eq!(parse_u128(&n.to_string()), n.to_string().parse::<u128>().ok());
  }
}

#[test]
fn relic_ids_are_block_colon_tx() {
  assert_eq!(parse_relic_id("840000:3"), Some(RelicId { block: 840000, tx: 3 }));
  assert_eq!(parse_relic_id("1:0"), Some(RelicId { block: 1, tx: 0 }));
  assert_eq!(parse_relic_id("840000"), None);
  assert_eq!(parse_relic_id("1:2:3"), None);
  assert_eq!(parse_relic_id(":3"), None);
  assert_eq!(parse_relic_id("18446744073709551616:0"), None);
  assert_eq!(parse_relic_id("1:4294967296"), None);
}

#[test]
fn amounts_are_numbers_or_strings() {
  assert_eq!(amount(&num("5")), Ok(5));
  assert_eq!(amount(&text("6")), Ok(6));
  assert_eq!(amount(&num("1e5")), Err(JsonError::InvalidU128));
  assert_eq!(amount(&text("x")), Err(JsonError::InvalidU128String));
  assert_eq!(amount(&JsonValue::Bool(true)), Err(JsonError::ExpectedNumber));
}

#[test]
fn prices_are_fixed_or_formulas() {
  assert_eq!(price(None), Ok(None));
  assert_eq!(price(Some(&JsonValue::Null)), Ok(None));
  assert_eq!(price(Some(&num("42"))), Ok(Some(PriceModel::Fixed(42))));
  let formula = obj(vec![("a", num("10")), ("b", text("5")), ("c", num("1"))]);
  assert_eq!(price(Some(&formula)), Ok(Some(PriceModel::Formula { a: 10, b: 5, c: 1 })));
  let partial = obj(vec![("a", num("10")), ("c", num("1"))]);
  assert_eq!(price(Some(&partial)), Err(JsonError::Missing(JsonField::B)));
  assert_eq!(price(Some(&JsonValue::Bool(false))), Err(JsonError::InvalidPriceModel));
}

#[test]
fn mint_terms_are_read_member_by_member() {
  let terms = obj(vec![
    ("amount", num("1000")),
    ("block_cap", JsonValue::Null),
    ("cap", text("21")),
    ("price", num("7")),
    ("seed", num("5000")),
    ("tx_cap", num("3")),
  ]);
  assert_eq!(
    mint_terms(Some(&terms)),
    Ok(Some(MintTerms {
      amount: Some(1000),
      block_cap: None,
      cap: Some(21),
      max_unmints: None,
      price: Some(PriceModel::Fixed(7)),
      seed: Some(5000),
      tx_cap: Some(3),
    }))
  );
  assert_eq!(mint_terms(Some(&num("1"))), Ok(None));
  let wide = obj(vec![("tx_cap", num("300"))]);
  assert_eq!(mint_terms(Some(&wide)), Err(JsonError::ExceedsU8));
  let wide = obj(vec![("block_cap", num("4294967296"))]);
  assert_eq!(mint_terms(Some(&wide)), Err(JsonError::ExceedsU32));
}

#[test]
fn a_full_record_is_read() {
  let v = record("30", vec![("mint_terms", obj(vec![("cap", num("21"))]))]);
  let r = parse_json_to_relic(&v).ok().unwrap();
  assert_eq!(r.id, RelicId { block: 840000, tx: 3 });
  assert_eq!(r.owner, Some("abc".to_string()));
  assert_eq!(r.block, 840000);
  let bytes = bitcoin::Txid::from_str("4a5e1e4baab89f3a32518a88c31bc87f618f76673e2cc77ab2127b7afdeda33b").unwrap().to_byte_array();
  assert_eq!(r.enshrining, Txid::from_slice(&bytes).unwrap());
  assert_eq!(r.fee, 30);
  assert_eq!(r.number, 7);
  assert_eq!(r.timestamp, 1700000000);
  assert!(r.mintable);
  assert_eq!(r.spaced_relic, SpacedRelic { relic: Relic(27), spacers: 1 });
  assert_eq!(r.mint_terms.unwrap().cap, Some(21));
  assert_eq!(r.state, RelicState { burned: 1, mints: 2, unmints: 3 });
  assert_eq!(r.symbol, Some('$'));
  assert_eq!(r.owner_sequence_number, Some(12));
}

#[test]
fn record_errors_come_in_reading_order() {
  assert_eq!(parse_json_to_relic(&record("70000", vec![])).err(), Some(JsonError::InvalidFee));
  let mut bad_txid = record("70000", vec![]);
  if let JsonValue::Object(members) = &mut bad_txid {
    members.retain(|(k, _)| k != "enshrining");
    members.push(("enshrining".to_string(), text("00ff")));
  }
  // the txid is read before the fee
  assert_eq!(parse_json_to_relic(&bad_txid).err(), Some(JsonError::InvalidTxid));
  assert_eq!(
    parse_json_to_relic(&record("-1", vec![])).err(),
    Some(JsonError::MissingOrInvalid(JsonField::Fee))
  );
  assert_eq!(
    parse_json_to_relic(&obj(vec![])).err(),
    Some(JsonError::MissingOrInvalid(JsonField::Id))
  );
  let bad_terms = record("30", vec![("mint_terms", obj(vec![("amount", JsonValue::Bool(true))]))]);
  assert_eq!(parse_json_to_relic(&bad_terms).err(), Some(JsonError::ExpectedNumber));
  let mut bad_name = record("30", vec![]);
  if let JsonValue::Object(members) = &mut bad_name {
    members.retain(|(k, _)| k != "spaced_relic");
    members.push(("spaced_relic".to_string(), text("a")));
  }
  assert_eq!(parse_json_to_relic(&bad_name).err(), Some(JsonError::InvalidSpacedRelic));
}

fn without(mut v: JsonValue, key: &str) -> JsonValue {
  if let JsonValue::Object(members) = &mut v {
    members.retain(|(k, _)| k != key);
  }
  v
}

#[test]
fn the_state_is_required_and_read_as_serde_reads_it() {
  let missing = without(record("30", vec![]), "state");
  assert_eq!(parse_json_to_relic(&missing).err(), Some(JsonError::Missing(JsonField::State)));
  assert_eq!(
    state(Some(&JsonValue::Array(vec![num("4"), num("5"), num("6")]))),
    Ok(RelicState { burned: 4, mints: 5, unmints: 6 })
  );
  assert_eq!(
    state(Some(&JsonValue::Array(vec![num("4"), num("5")]))),
    Err(JsonError::InvalidState)
  );
  assert_eq!(
    state(Some(&obj(vec![("burned", num("1")), ("mints", text("2")), ("unmints", num("3"))]))),
    Err(JsonError::InvalidState)
  );
  assert_eq!(state(Some(&JsonValue::Null)), Err(JsonError::InvalidState));
  let odd = record(
    "30",
    vec![],
  );
  let odd = without(without(odd, "symbol"), "owner_sequence_number");
  let mut odd = odd;
  if let JsonValue::Object(members) = &mut odd {
    members.push(("symbol".to_string(), text("ab")));
    members.push(("owner_sequence_number".to_string(), num("4294967296")));
  }
  let r = parse_json_to_relic(&odd).ok().unwrap();
  assert_eq!((r.symbol, r.owner_sequence_number), (None, None));
}
