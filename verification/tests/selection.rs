use relics::selection::{
  get_required_relic_outputs, relic_candidates, select_required_relic_outputs,
  try_select_required_relic_outputs, OutPoint,
};
use relics::{Relic, SpacedRelic, Txid};

fn op(n: u128, vout: u32) -> OutPoint {
  OutPoint { txid: Txid { low: n, high: 0 }, vout }
}

fn relic(n: u128) -> SpacedRelic {
  SpacedRelic { relic: Relic(n), spacers: 0 }
}

fn sorted(mut v: Vec<(SpacedRelic, u128)>) -> Vec<(SpacedRelic, u128)> {
  v.sort();
  v
}

#[test]
fn outputs_are_taken_until_the_requirement_is_met() {
  let available = vec![
    (op(1, 0), vec![(relic(7), 5)]),
    (op(2, 0), vec![(relic(8), 3), (relic(7), 1)]),
    (op(3, 0), vec![(relic(7), 10)]),
  ];
  let (outs, alloc) = select_required_relic_outputs(&available, &[(relic(7), 6)]);
  assert_eq!(outs, vec![op(1, 0), op(2, 0)]);
  assert_eq!(sorted(alloc), vec![(relic(7), 6), (relic(8), 3)]);
}

#[test]
fn outputs_without_the_required_relic_are_skipped() {
  let available = vec![
    (op(1, 0), vec![(relic(8), 3)]),
    (op(2, 1), vec![(relic(7), 0), (relic(9), 4)]),
    (op(3, 2), vec![(relic(7), 2)]),
  ];
  let (outs, alloc) = select_required_relic_outputs(&available, &[(relic(7), 2)]);
  assert_eq!(outs, vec![op(3, 2)]);
  assert_eq!(alloc, vec![(relic(7), 2)]);
}

#[test]
fn one_output_may_serve_several_requirements() {
  let available = vec![
    (op(1, 0), vec![(relic(7), 5), (relic(8), 5)]),
    (op(2, 0), vec![(relic(8), 5)]),
  ];
  let (outs, alloc) =
    select_required_relic_outputs(&available, &[(relic(7), 1), (relic(8), 5)]);
  assert_eq!(outs, vec![op(1, 0)]);
  assert_eq!(sorted(alloc), vec![(relic(7), 5), (relic(8), 5)]);
}

#[test]
fn nothing_required_takes_nothing() {
  let available = vec![(op(1, 0), vec![(relic(7), 5)])];
  let (outs, alloc) = select_required_relic_outputs(&available, &[]);
  assert!(outs.is_empty());
  assert!(alloc.is_empty());
}

#[test]
fn unmet_requirements_give_none() {
  let available = vec![(op(1, 0), vec![(relic(7), 5)]), (op(2, 0), vec![(relic(7), 2)])];
  assert_eq!(try_select_required_relic_outputs(&available, &[(relic(7), 8)]), None);
  assert_eq!(
    try_select_required_relic_outputs(&available, &[(relic(7), 7)]),
    Some((vec![op(1, 0), op(2, 0)], vec![(relic(7), 7)]))
  );
}

#[test]
fn overflowing_allocation_gives_none() {
  let available = vec![
    (op(1, 0), vec![(relic(7), 1), (relic(8), u128::MAX)]),
    (op(2, 0), vec![(relic(7), 1), (relic(8), 1)]),
  ];
  assert_eq!(try_select_required_relic_outputs(&available, &[(relic(7), 2)]), None);
}

#[test]
fn inscribed_runic_and_empty_outputs_are_not_candidates() {
  let outputs = vec![
    (op(1, 0), vec![(relic(7), 5)]),
    (op(2, 0), vec![]),
    (op(3, 0), vec![(relic(7), 5)]),
    (op(4, 0), vec![(relic(7), 5)]),
    (op(5, 0), vec![(relic(7), 1)]),
  ];
  let inscribed = [op(3, 0)];
  let runic = [op(4, 0)];
  assert_eq!(
    relic_candidates(&outputs, &inscribed, &runic),
    vec![(op(1, 0), vec![(relic(7), 5)]), (op(5, 0), vec![(relic(7), 1)])]
  );
  assert_eq!(
    get_required_relic_outputs(&outputs, &inscribed, &runic, &[(relic(7), 6)]),
    Some((vec![op(1, 0), op(5, 0)], vec![(relic(7), 6)]))
  );
  assert_eq!(get_required_relic_outputs(&outputs, &inscribed, &runic, &[(relic(7), 7)]), None);
}
