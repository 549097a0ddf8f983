use crate::flaw::RelicFlaw;
use crate::keepsake::tag::{fields_view, push_field, push_value, FieldsView};
use crate::relic_id::RelicId;
use crate::transaction::Transaction;
use crate::transfer::Transfer;
use std::collections::{HashMap, VecDeque};
use vstd::prelude::*;

verus! {

broadcast use vstd::std_specs::hash::group_hash_axioms;

/// The integers of a keepsake, split into its transfers and its tagged fields.
pub struct Message {
    pub flaw: Option<RelicFlaw>,
    pub transfers: Vec<Transfer>,
    pub fields: HashMap<u128, VecDeque<u128>>,
}

/// The mathematical form of a [`Message`].
pub struct MessageView {
    pub flaw: Option<RelicFlaw>,
    pub transfers: Seq<Transfer>,
    pub fields: FieldsView,
}

impl View for Message {
    type V = MessageView;

    open spec fn view(&self) -> MessageView {
        MessageView { flaw: self.flaw, transfers: self.transfers@, fields: fields_view(self.fields@) }
    }
}

/// The transfers of a body that starts at index `j` of `ints`, each four integers:
/// the block and transaction deltas of its relic id, its amount and its output.
/// Parsing stops at the first malformed transfer, with its flaw.
pub open spec fn spec_body(
    n_outputs: nat,
    ints: Seq<u128>,
    j: int,
    id: RelicId,
    transfers: Seq<Transfer>,
) -> (Option<RelicFlaw>, Seq<Transfer>)
    decreases ints.len() - j,
{
    if j >= ints.len() {
        (None, transfers)
    } else if j + 4 > ints.len() {
        (Some(RelicFlaw::TrailingIntegers), transfers)
    } else {
        match id.spec_next(ints[j], ints[j + 1]) {
            None => (Some(RelicFlaw::TransferRelicId), transfers),
            Some(next) => match Transfer::spec_from_integers(n_outputs, next, ints[j + 2], ints[j + 3]) {
                None => (Some(RelicFlaw::TransferOutput), transfers),
                Some(t) => spec_body(n_outputs, ints, j + 4, next, transfers.push(t)),
            },
        }
    }
}

/// The message of the integers from index `i` on, given the fields gathered so far:
/// tag and value pairs until the body tag (zero), after which come the transfers.
pub open spec fn spec_message_from(n_outputs: nat, ints: Seq<u128>, i: int, fields: FieldsView) -> MessageView
    decreases ints.len() - i,
{
    if i >= ints.len() {
        MessageView { flaw: None, transfers: seq![], fields }
    } else if ints[i] == 0 {
        let (flaw, transfers) = spec_body(n_outputs, ints, i + 1, RelicId { block: 0, tx: 0 }, seq![]);
        MessageView { flaw, transfers, fields }
    } else if i + 1 >= ints.len() {
        MessageView { flaw: Some(RelicFlaw::TruncatedField), transfers: seq![], fields }
    } else {
        spec_message_from(n_outputs, ints, i + 2, push_field(fields, ints[i], ints[i + 1]))
    }
}

/// The message of a keepsake's integers, in a transaction with `n_outputs` outputs.
pub open spec fn spec_message(n_outputs: nat, ints: Seq<u128>) -> MessageView {
    spec_message_from(n_outputs, ints, 0, Map::empty())
}

impl Message {
    pub fn from_integers(tx: &Transaction, payload: &[u128]) -> (m: Message)
        requires
            tx.output.len() <= u32::MAX,
        ensures
            m@ == spec_message(tx.output.len() as nat, payload@),
    {
        let ghost n = tx.output.len() as nat;
        let mut fields: HashMap<u128, VecDeque<u128>> = HashMap::new();
        let mut i: usize = 0;
        proof {
            assert(fields_view(fields@) =~= Map::<u128, Seq<u128>>::empty());
        }
        while i < payload.len()
            invariant
                i <= payload.len(),
                n == tx.output.len(),
                tx.output.len() <= u32::MAX,
                spec_message(n, payload@) == spec_message_from(n, payload@, i as int, fields_view(fields@)),
            decreases payload.len() - i,
        {
            let tag = payload[i];
            if tag == 0 {
                let (flaw, transfers) = Self::body(tx, payload, i + 1);
                return Message { flaw, transfers, fields };
            }
            if i + 1 >= payload.len() {
                return Message { flaw: Some(RelicFlaw::TruncatedField), transfers: Vec::new(), fields };
            }
            push_value(&mut fields, tag, payload[i + 1]);
            i = i + 2;
        }
        Message { flaw: None, transfers: Vec::new(), fields }
    }

    fn body(tx: &Transaction, payload: &[u128], start: usize) -> (r: (Option<RelicFlaw>, Vec<Transfer>))
        requires
            start <= payload.len(),
            tx.output.len() <= u32::MAX,
        ensures
            (r.0, r.1@) == spec_body(tx.output.len() as nat, payload@, start as int, RelicId { block: 0, tx: 0 }, seq![]),
    {
        let ghost n = tx.output.len() as nat;
        let mut transfers: Vec<Transfer> = Vec::new();
        let mut id = RelicId::default();
        let mut j: usize = start;
        while j < payload.len()
            invariant
                start <= j <= payload.len(),
                n == tx.output.len(),
                tx.output.len() <= u32::MAX,
                spec_body(n, payload@, start as int, RelicId { block: 0, tx: 0 }, seq![])
                    == spec_body(n, payload@, j as int, id, transfers@),
            decreases payload.len() - j,
        {
            if payload.len() - j < 4 {
                return (Some(RelicFlaw::TrailingIntegers), transfers);
            }
            let next = match id.next(payload[j], payload[j + 1]) {
                Some(next) => next,
                None => return (Some(RelicFlaw::TransferRelicId), transfers),
            };
            let transfer = match Transfer::from_integers(tx, next, payload[j + 2], payload[j + 3]) {
                Some(t) => t,
                None => return (Some(RelicFlaw::TransferOutput), transfers),
            };
            id = next;
            transfers.push(transfer);
            j = j + 4;
        }
        (None, transfers)
    }
}

/// Every transfer names an output of the transaction, or `n_outputs` itself (which
/// splits among all of them).
pub open spec fn transfers_fit(transfers: Seq<Transfer>, n_outputs: nat) -> bool {
    forall|k: int| 0 <= k < transfers.len() ==> #[trigger] transfers[k].output <= n_outputs
}

proof fn lemma_body_fits(n_outputs: nat, ints: Seq<u128>, j: int, id: RelicId, transfers: Seq<Transfer>)
    requires
        transfers_fit(transfers, n_outputs),
    ensures
        transfers_fit(spec_body(n_outputs, ints, j, id, transfers).1, n_outputs),
    decreases ints.len() - j,
{
    if j < ints.len() && j + 4 <= ints.len() {
        if let Some(next) = id.spec_next(ints[j], ints[j + 1]) {
            if let Some(t) = Transfer::spec_from_integers(n_outputs, next, ints[j + 2], ints[j + 3]) {
                let more = transfers.push(t);
                assert forall|k: int| 0 <= k < more.len() implies #[trigger] more[k].output <= n_outputs by {
                    if k < transfers.len() {
                        assert(more[k] == transfers[k]);
                    }
                }
                lemma_body_fits(n_outputs, ints, j + 4, next, more);
            }
        }
    }
}

/// The transfers that a keepsake's integers give name only outputs that the
/// transaction has, or all of them.
pub proof fn lemma_message_fits(n_outputs: nat, ints: Seq<u128>, i: int, fields: FieldsView)
    ensures
        transfers_fit(spec_message_from(n_outputs, ints, i, fields).transfers, n_outputs),
    decreases ints.len() - i,
{
    if i < ints.len() {
        if ints[i] == 0 {
            lemma_body_fits(n_outputs, ints, i + 1, RelicId { block: 0, tx: 0 }, seq![]);
        } else if i + 1 < ints.len() {
            lemma_message_fits(n_outputs, ints, i + 2, push_field(fields, ints[i], ints[i + 1]));
        }
    }
}

} // verus!
