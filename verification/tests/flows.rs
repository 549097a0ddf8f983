use bitcoin::hashes::Hash as BitcoinHash;
use bitcoin::{Address, Network, PubkeyHash, ScriptBuf};
use relics::balance::Finalized;
use relics::flows::{address_flows, transaction_flows, AddressFlow, Chain};
use relics::{RelicId, Transaction, TxOut};

const A: RelicId = RelicId { block: 5, tx: 1 };
const B: RelicId = RelicId { block: 6, tx: 2 };

fn entry(address: &str, relic: RelicId, amount: u128) -> (String, RelicId, u128) {
  (address.to_string(), relic, amount)
}

fn sorted(mut flows: Vec<AddressFlow>) -> Vec<AddressFlow> {
  flows.sort_by_key(|f| format!("{f:?}"));
  flows
}

fn received(address: &str, relic: RelicId, amount: u128) -> AddressFlow {
  AddressFlow::Received { address: address.to_string(), relic, amount }
}

fn spent(address: &str, relic: RelicId, amount: u128) -> AddressFlow {
  AddressFlow::Spent { address: address.to_string(), relic, amount }
}

#[test]
fn address_flows_net_what_each_address_sent_and_received() {
  let incoming = vec![entry("x", A, 10), entry("x", A, 5), entry("y", B, 7), entry("z", A, 4)];
  let outgoing = vec![entry("x", A, 3), entry("y", B, 9), entry("w", A, 1), entry("z", A, 4)];
  let flows = address_flows(&incoming, &outgoing).unwrap();
  assert_eq!(
    sorted(flows),
    sorted(vec![
      spent("x", A, 12),
      received("y", B, 2),
      received("w", A, 1),
      spent("z", A, 0),
    ])
  );
}

#[test]
fn address_flows_overflow_is_none() {
  let incoming = vec![entry("x", A, u128::MAX), entry("x", A, 1)];
  assert_eq!(address_flows(&incoming, &[]), None);
  assert_eq!(address_flows(&[], &incoming), None);
  assert_eq!(address_flows(&[], &[]), Some(vec![]));
}

fn p2pkh(byte: u8) -> (ScriptBuf, String) {
  let hash = PubkeyHash::from_byte_array([byte; 20]);
  let address = Address::p2pkh(hash, Network::Regtest);
  (address.script_pubkey(), address.to_string())
}

#[test]
fn transaction_flows_use_the_addresses_of_the_scripts() {
  let (alice_script, alice) = p2pkh(1);
  let (bob_script, bob) = p2pkh(2);
  let tx = Transaction {
    output: vec![
      TxOut { script_pubkey: vec![0x6a] },
      TxOut { script_pubkey: bob_script.to_bytes() },
      TxOut { script_pubkey: alice_script.to_bytes() },
    ],
  };
  let finalized = Finalized {
    outputs: vec![(1, vec![(A, 6)]), (2, vec![(A, 4), (B, 1)])],
    burned: vec![],
  };
  let senders = vec![
    (Some(alice_script.to_bytes()), vec![(A, 10)]),
    (None, vec![(B, 1)]),
    (Some(vec![0x6a]), vec![(A, 99)]),
  ];
  let flows = transaction_flows(&senders, &tx, &finalized, Chain::Regtest).unwrap();
  assert_eq!(
    sorted(flows),
    sorted(vec![
      spent(&alice, A, 6),
      received(&bob, A, 6),
      received(&alice, B, 1),
    ])
  );
}
