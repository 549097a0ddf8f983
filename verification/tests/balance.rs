use relics::balance::non_op_return_outputs;
use relics::{RelicId, RelicsBalance, Transaction, Transfer, TxOut};
use relics::block::UnsafeTxids;
use relics::Txid as BlockTxid;

const TXID: BlockTxid = BlockTxid { low: 1, high: 0 };

const A: RelicId = RelicId { block: 5, tx: 1 };
const B: RelicId = RelicId { block: 2, tx: 7 };

fn out(op_return: bool) -> TxOut {
  TxOut {
    script_pubkey: if op_return {
      vec![0x6a, 0x01, 0x02]
    } else {
      vec![0x51]
    },
  }
}

fn tx(op_returns: &[bool]) -> Transaction {
  Transaction {
    output: op_returns.iter().map(|b| out(*b)).collect(),
  }
}

fn sorted(mut v: Vec<(RelicId, u128)>) -> Vec<(RelicId, u128)> {
  v.sort();
  v
}

#[test]
fn new_sums_inputs_and_their_safe_part() {
  let b = RelicsBalance::from_flagged(&[(A, 10, true), (A, 5, false), (B, 7, false)], 2);
  assert_eq!(b.get(A), 15);
  assert_eq!(b.get_safe(A), 10);
  assert_eq!(b.get(B), 7);
  assert_eq!(b.get_safe(B), 0);
  assert_eq!(b.get(RelicId { block: 9, tx: 9 }), 0);
}

#[test]
fn remove_spends_the_safe_balance_last() {
  let mut b = RelicsBalance::from_flagged(&[(A, 10, true), (A, 5, false)], 1);
  b.remove(A, 3);
  assert_eq!((b.get(A), b.get_safe(A)), (12, 10));
  b.remove(A, 5);
  assert_eq!((b.get(A), b.get_safe(A)), (7, 7));
  b.remove(A, 7);
  assert_eq!((b.get(A), b.get_safe(A)), (0, 0));
}

#[test]
fn remove_safe_takes_from_both() {
  let mut b = RelicsBalance::from_flagged(&[(A, 10, true), (A, 5, false)], 1);
  b.remove_safe(A, 4);
  assert_eq!((b.get(A), b.get_safe(A)), (11, 6));
}

#[test]
fn add_does_not_count_as_safe_but_add_safe_does() {
  let mut b = RelicsBalance::from_flagged(&[], 1);
  b.add(A, 4);
  assert_eq!((b.get(A), b.get_safe(A)), (4, 0));
  b.add_safe(A, 6);
  assert_eq!((b.get(A), b.get_safe(A)), (10, 6));
}

#[test]
fn burn_all_burns_every_unallocated_relic() {
  let t = tx(&[false]);
  let mut b = RelicsBalance::from_flagged(&[(A, 10, true), (B, 3, false)], 1);
  b.burn(A, 2);
  b.burn_all();
  assert_eq!(b.get(A), 0);
  assert_eq!(b.get_safe(A), 0);
  let fin = b.finalize(&t, TXID, &mut UnsafeTxids::new());
  assert!(fin.outputs.is_empty());
  assert_eq!(sorted(fin.burned), vec![(B, 3), (A, 12)]);
}

#[test]
fn allocate_all_moves_everything_to_one_output() {
  let t = tx(&[false, false]);
  let mut b = RelicsBalance::from_flagged(&[(A, 10, true), (B, 3, false)], 2);
  b.allocate(0, A, 1);
  b.allocate_all(1);
  assert_eq!(b.get(A), 0);
  let fin = b.finalize(&t, TXID, &mut UnsafeTxids::new());
  assert_eq!(fin.outputs, vec![(0, vec![(A, 1)]), (1, vec![(B, 3), (A, 10)])]);
  assert!(fin.burned.is_empty());
}

#[test]
fn allocate_ignores_zero_amounts() {
  let t = tx(&[false]);
  let mut b = RelicsBalance::from_flagged(&[], 1);
  b.allocate(0, A, 0);
  let fin = b.finalize(&t, TXID, &mut UnsafeTxids::new());
  assert!(fin.outputs.is_empty());
}

#[test]
fn transfer_to_one_output_takes_at_most_the_balance() {
  let t = tx(&[false, false]);
  let mut b = RelicsBalance::from_flagged(&[(A, 10, true)], 2);
  b.allocate_transfers(
    &[
      Transfer { id: A, amount: 4, output: 0 },
      Transfer { id: A, amount: 100, output: 1 },
      Transfer { id: A, amount: 0, output: 0 },
    ],
    None,
    &t,
  );
  assert_eq!(b.get(A), 0);
  assert_eq!(b.get_safe(A), 0);
  let fin = b.finalize(&t, TXID, &mut UnsafeTxids::new());
  assert_eq!(fin.outputs, vec![(0, vec![(A, 4)]), (1, vec![(A, 6)])]);
}

#[test]
fn transfer_of_zero_to_all_splits_evenly_over_non_op_return_outputs() {
  let t = tx(&[false, true, false]);
  let mut b = RelicsBalance::from_flagged(&[(A, 11, false)], 3);
  b.allocate_transfers(&[Transfer { id: A, amount: 0, output: 3 }], None, &t);
  assert_eq!(b.get(A), 0);
  let fin = b.finalize(&t, TXID, &mut UnsafeTxids::new());
  assert_eq!(fin.outputs, vec![(0, vec![(A, 6)]), (2, vec![(A, 5)])]);
}

#[test]
fn transfer_of_an_amount_to_all_gives_each_output_that_amount_while_it_lasts() {
  let t = tx(&[false, false, false]);
  let mut b = RelicsBalance::from_flagged(&[(A, 10, false)], 3);
  b.allocate_transfers(&[Transfer { id: A, amount: 4, output: 3 }], None, &t);
  assert_eq!(b.get(A), 0);
  let fin = b.finalize(&t, TXID, &mut UnsafeTxids::new());
  assert_eq!(
    fin.outputs,
    vec![(0, vec![(A, 4)]), (1, vec![(A, 4)]), (2, vec![(A, 2)])]
  );
}

#[test]
fn transfer_of_id_zero_moves_the_default_relic() {
  let t = tx(&[false]);
  let mut b = RelicsBalance::from_flagged(&[(A, 10, false)], 1);
  b.allocate_transfers(&[Transfer { id: RelicId::default(), amount: 3, output: 0 }], None, &t);
  assert_eq!(b.get(A), 10);
  b.allocate_transfers(&[Transfer { id: RelicId::default(), amount: 3, output: 0 }], Some(A), &t);
  assert_eq!(b.get(A), 7);
  let fin = b.finalize(&t, TXID, &mut UnsafeTxids::new());
  assert_eq!(fin.outputs, vec![(0, vec![(A, 3)])]);
}

#[test]
fn transfer_of_an_absent_relic_does_nothing() {
  let t = tx(&[false]);
  let mut b = RelicsBalance::from_flagged(&[(A, 10, false)], 1);
  b.allocate_transfers(&[Transfer { id: B, amount: 3, output: 0 }], None, &t);
  assert_eq!(b.get(A), 10);
  assert_eq!(b.get(B), 0);
}

#[test]
fn relics_sent_to_op_return_outputs_are_burned() {
  let t = tx(&[true, false]);
  let mut b = RelicsBalance::from_flagged(&[(A, 10, false), (B, 2, false)], 2);
  b.allocate_transfers(&[Transfer { id: A, amount: 4, output: 0 }], None, &t);
  b.allocate_all(1);
  let fin = b.finalize(&t, TXID, &mut UnsafeTxids::new());
  assert_eq!(fin.outputs, vec![(1, vec![(B, 2), (A, 6)])]);
  assert_eq!(fin.burned, vec![(A, 4)]);
}

#[test]
fn non_op_return_outputs_lists_spendable_outputs() {
  assert_eq!(non_op_return_outputs(&tx(&[true, false, true, false])), vec![1, 3]);
  assert_eq!(non_op_return_outputs(&tx(&[])), Vec::<usize>::new());
  let empty_script = Transaction {
    output: vec![TxOut { script_pubkey: vec![] }],
  };
  assert_eq!(non_op_return_outputs(&empty_script), vec![0]);
}

#[test]
fn the_safe_part_stays_within_the_balance() {
  let mut b = RelicsBalance::from_flagged(&[(A, 10, true), (A, 5, false)], 2);
  let check = |b: &RelicsBalance| assert!(b.get_safe(A) <= b.get(A));
  check(&b);
  b.remove(A, 9);
  check(&b);
  b.add_safe(A, 4);
  check(&b);
  b.remove_safe(A, 3);
  check(&b);
  b.add(A, 1);
  check(&b);
  b.remove(A, b.get(A));
  check(&b);
  assert_eq!((b.get(A), b.get_safe(A)), (0, 0));
}

#[test]
fn inputs_from_transactions_indexed_in_the_block_are_not_safe() {
  let mut block = UnsafeTxids::new();
  let earlier = BlockTxid { low: 5, high: 0 };
  let same = BlockTxid { low: 6, high: 0 };
  block.mark(same);
  assert!(block.contains(same) && !block.contains(earlier));
  let b = RelicsBalance::new(&[(earlier, vec![(A, 10), (B, 1)]), (same, vec![(A, 4)])], &block, 1);
  assert_eq!((b.get(A), b.get_safe(A)), (14, 10));
  assert_eq!((b.get(B), b.get_safe(B)), (1, 1));
  let t = tx(&[false]);
  let mut block2 = UnsafeTxids::new();
  let fin = b.finalize(&t, TXID, &mut block2);
  assert!(block2.contains(TXID));
  assert_eq!(fin.outputs.len(), 0);
}
