use crate::ledger::{
    amount, keys_distinct, lemma_seq_to_map_contains, lemma_seq_to_map_index, seq_to_map, Ledger,
};
use crate::keepsake::encipher::id_le;
use crate::block::{flagged_inputs, inputs_amount, inputs_view, lemma_flagged_sums, UnsafeTxids};
use crate::relic_id::RelicId;
use crate::txid::Txid;
use crate::transaction::{spec_is_op_return, Transaction};
use crate::transfer::Transfer;
use vstd::prelude::*;

verus! {

/// The balances of a transaction while it is indexed, as maps from relic id to amount.
#[verifier::ext_equal]
pub struct BalanceView {
    /// unallocated relics
    pub total: Map<RelicId, u128>,
    /// the part of the unallocated relics that came from outputs of earlier blocks
    pub safe: Map<RelicId, u128>,
    /// relics to burn
    pub burned: Map<RelicId, u128>,
    /// relics allocated to each output
    pub allocated: Seq<Map<RelicId, u128>>,
}

/// The sum of the amounts of an id over all outputs.
pub open spec fn alloc_sum(allocated: Seq<Map<RelicId, u128>>, id: RelicId) -> int
    decreases allocated.len(),
{
    if allocated.len() == 0 {
        0
    } else {
        alloc_sum(allocated.drop_last(), id) + amount(allocated.last(), id)
    }
}

/// The sum of the amounts of an id over a list of input balances, over all of them
/// or over the safe ones only.
pub open spec fn input_sum(inputs: Seq<(RelicId, u128, bool)>, id: RelicId, safe_only: bool) -> int
    decreases inputs.len(),
{
    if inputs.len() == 0 {
        0
    } else {
        input_sum(inputs.drop_last(), id, safe_only) + if inputs.last().0 == id && (!safe_only
            || inputs.last().2) {
            inputs.last().1 as int
        } else {
            0
        }
    }
}

/// Some input balance (a safe one, where `safe_only`) names the id.
pub open spec fn input_names(inputs: Seq<(RelicId, u128, bool)>, id: RelicId, safe_only: bool) -> bool {
    exists|j: int| 0 <= j < inputs.len() && inputs[j].0 == id && (!safe_only || inputs[j].2)
}

proof fn lemma_input_sum_prefix(inputs: Seq<(RelicId, u128, bool)>, id: RelicId, safe_only: bool, i: int)
    requires
        0 <= i <= inputs.len(),
    ensures
        0 <= input_sum(inputs.take(i), id, safe_only) <= input_sum(inputs, id, safe_only),
    decreases inputs.len(),
{
    if i < inputs.len() {
        assert(inputs.drop_last().take(i) =~= inputs.take(i));
        lemma_input_sum_prefix(inputs.drop_last(), id, safe_only, i);
    } else {
        assert(inputs.take(i) =~= inputs);
        lemma_input_sum_nonneg(inputs, id, safe_only);
    }
}

pub(crate) proof fn lemma_input_sum_nonneg(inputs: Seq<(RelicId, u128, bool)>, id: RelicId, safe_only: bool)
    ensures
        input_sum(inputs, id, safe_only) >= 0,
    decreases inputs.len(),
{
    if inputs.len() > 0 {
        lemma_input_sum_nonneg(inputs.drop_last(), id, safe_only);
    }
}

pub(crate) proof fn lemma_input_sum_safe_le(inputs: Seq<(RelicId, u128, bool)>, id: RelicId)
    ensures
        input_sum(inputs, id, true) <= input_sum(inputs, id, false),
    decreases inputs.len(),
{
    if inputs.len() > 0 {
        lemma_input_sum_safe_le(inputs.drop_last(), id);
    }
}

/// The amount of an id at one output is part of the sum over all outputs.
pub proof fn lemma_alloc_sum_bounds(allocated: Seq<Map<RelicId, u128>>, id: RelicId, o: int)
    requires
        0 <= o < allocated.len(),
    ensures
        amount(allocated[o], id) <= alloc_sum(allocated, id),
    decreases allocated.len(),
{
    lemma_alloc_sum_nonneg(allocated.drop_last(), id);
    if o < allocated.len() - 1 {
        assert(allocated.drop_last()[o] == allocated[o]);
        lemma_alloc_sum_bounds(allocated.drop_last(), id, o);
    }
}

pub proof fn lemma_alloc_sum_nonneg(allocated: Seq<Map<RelicId, u128>>, id: RelicId)
    ensures
        alloc_sum(allocated, id) >= 0,
    decreases allocated.len(),
{
    if allocated.len() > 0 {
        lemma_alloc_sum_nonneg(allocated.drop_last(), id);
    }
}

/// Changing one output changes the sum by the change at that output.
pub proof fn lemma_alloc_sum_update(
    allocated: Seq<Map<RelicId, u128>>,
    o: int,
    m: Map<RelicId, u128>,
    id: RelicId,
)
    requires
        0 <= o < allocated.len(),
    ensures
        alloc_sum(allocated.update(o, m), id) == alloc_sum(allocated, id) - amount(allocated[o], id)
            + amount(m, id),
    decreases allocated.len(),
{
    let u = allocated.update(o, m);
    if o == allocated.len() - 1 {
        assert(u.drop_last() =~= allocated.drop_last());
    } else {
        assert(u.drop_last() =~= allocated.drop_last().update(o, m));
        assert(allocated.drop_last()[o] == allocated[o]);
        lemma_alloc_sum_update(allocated.drop_last(), o, m, id);
    }
}

/// Adds `a` of a relic to output `o`, where `a` is not zero.
pub open spec fn credit(alloc: Seq<Map<RelicId, u128>>, o: int, id: RelicId, a: u128) -> Seq<
    Map<RelicId, u128>,
> {
    if a > 0 {
        alloc.update(o, alloc[o].insert(id, (amount(alloc[o], id) + a) as u128))
    } else {
        alloc
    }
}

/// The share of the `k`-th of the outputs when a balance `q * n + r` is divided
/// between `n` outputs: the first `r` get one more.
pub open spec fn share(q: u128, r: u128, k: int) -> int {
    if k < r {
        q + 1
    } else {
        q as int
    }
}

/// Credits the first `i` of the destinations with their shares of an even split.
pub open spec fn even_split(
    alloc: Seq<Map<RelicId, u128>>,
    dests: Seq<usize>,
    id: RelicId,
    q: u128,
    r: u128,
    i: nat,
) -> Seq<Map<RelicId, u128>>
    decreases i,
{
    if i == 0 {
        alloc
    } else {
        credit(
            even_split(alloc, dests, id, q, r, (i - 1) as nat),
            dests[i - 1] as int,
            id,
            share(q, r, i - 1) as u128,
        )
    }
}

/// Credits the first `i` of the destinations with `a` each, as long as the balance
/// lasts; gives the allocations and what is left of the balance.
pub open spec fn fill(
    alloc: Seq<Map<RelicId, u128>>,
    bal: u128,
    dests: Seq<usize>,
    id: RelicId,
    a: u128,
    i: nat,
) -> (Seq<Map<RelicId, u128>>, u128)
    decreases i,
{
    if i == 0 {
        (alloc, bal)
    } else {
        let (al, b) = fill(alloc, bal, dests, id, a, (i - 1) as nat);
        let x = if a < b {
            a
        } else {
            b
        };
        (credit(al, dests[i - 1] as int, id, x), (b - x) as u128)
    }
}

/// The indices of the outputs that are not `OP_RETURN`, in order.
pub open spec fn destinations(scripts: Seq<Seq<u8>>) -> Seq<usize>
    decreases scripts.len(),
{
    if scripts.len() == 0 {
        Seq::empty()
    } else {
        let d = destinations(scripts.drop_last());
        if spec_is_op_return(scripts.last()) {
            d
        } else {
            d.push((scripts.len() - 1) as usize)
        }
    }
}

/// The relic a transfer moves: its id, or the default where the id is `0:0`.
pub open spec fn transfer_target(t: Transfer, default: Option<RelicId>) -> Option<RelicId> {
    if t.id == (RelicId { block: 0, tx: 0 }) {
        default
    } else {
        Some(t.id)
    }
}

/// One transfer: from the unallocated balance of its relic (if there is an entry),
/// to its output; to the output past the last, every non-`OP_RETURN` output gets
/// the amount in turn (an amount of zero divides the balance evenly between them).
/// An amount of zero, or one above the balance, means all that is left.
pub open spec fn transfer_step(
    v: BalanceView,
    t: Transfer,
    default: Option<RelicId>,
    dests: Seq<usize>,
    n_outputs: nat,
) -> BalanceView {
    match transfer_target(t, default) {
        None => v,
        Some(id) => {
            if !v.total.contains_key(id) {
                v
            } else {
                let bal = v.total[id];
                if t.output == n_outputs {
                    if dests.len() == 0 {
                        v
                    } else if t.amount == 0 {
                        let q = (bal / (dests.len() as u128)) as u128;
                        let r = (bal % (dests.len() as u128)) as u128;
                        BalanceView {
                            total: v.total.insert(id, 0),
                            safe: v.safe,
                            burned: v.burned,
                            allocated: even_split(v.allocated, dests, id, q, r, dests.len()),
                        }
                    } else {
                        let (al, b) = fill(v.allocated, bal, dests, id, t.amount, dests.len());
                        BalanceView {
                            total: v.total.insert(id, b),
                            safe: v.safe,
                            burned: v.burned,
                            allocated: al,
                        }
                    }
                } else {
                    let a = if t.amount == 0 || t.amount > bal {
                        bal
                    } else {
                        t.amount
                    };
                    BalanceView {
                        total: v.total.insert(id, (bal - a) as u128),
                        safe: v.safe,
                        burned: v.burned,
                        allocated: credit(v.allocated, t.output as int, id, a),
                    }
                }
            }
        },
    }
}

/// The transfers, one after the other.
pub open spec fn transfers_fold(
    v: BalanceView,
    ts: Seq<Transfer>,
    default: Option<RelicId>,
    dests: Seq<usize>,
    n_outputs: nat,
) -> BalanceView
    decreases ts.len(),
{
    if ts.len() == 0 {
        v
    } else {
        transfer_step(
            transfers_fold(v, ts.drop_last(), default, dests, n_outputs),
            ts.last(),
            default,
            dests,
            n_outputs,
        )
    }
}

/// Each relic's unallocated and allocated amounts together.
/// The relics that the inputs bring, each relic's total and safe part, with no
/// output credited and nothing burned.
pub open spec fn opening(inputs: Seq<(RelicId, u128, bool)>, n_outputs: nat) -> BalanceView {
    BalanceView {
        total: Map::new(
            |id: RelicId| input_names(inputs, id, false),
            |id: RelicId| input_sum(inputs, id, false) as u128,
        ),
        safe: Map::new(
            |id: RelicId| input_names(inputs, id, true),
            |id: RelicId| input_sum(inputs, id, true) as u128,
        ),
        burned: Map::empty(),
        allocated: Seq::new(n_outputs, |o: int| Map::<RelicId, u128>::empty()),
    }
}

/// Changing one relic's unallocated balance and safe part, the one within the other,
/// keeps every safe part within its balance.
proof fn lemma_safe_kept(before: BalanceView, after: BalanceView, id: RelicId)
    requires
        safe_within_total(before),
        amount(after.safe, id) <= amount(after.total, id),
        forall|k: RelicId| k != id ==> #[trigger] amount(after.safe, k) == amount(before.safe, k),
        forall|k: RelicId| k != id ==> #[trigger] amount(after.total, k) == amount(before.total, k),
    ensures
        safe_within_total(after),
{
    assert forall|k: RelicId| #[trigger] amount(after.safe, k) <= amount(after.total, k) by {
        if k != id {
            assert(amount(before.safe, k) <= amount(before.total, k));
        }
    }
}

/// Each relic's safe part is at most its unallocated balance.
pub open spec fn safe_within_total(v: BalanceView) -> bool {
    forall|id: RelicId| #[trigger] amount(v.safe, id) <= amount(v.total, id)
}

pub open spec fn held(v: BalanceView, id: RelicId) -> int {
    amount(v.total, id) + alloc_sum(v.allocated, id)
}

proof fn lemma_credit_sum(alloc: Seq<Map<RelicId, u128>>, o: int, id: RelicId, a: u128, x: RelicId)
    requires
        0 <= o < alloc.len(),
        a > 0 ==> amount(alloc[o], id) + a <= u128::MAX,
    ensures
        alloc_sum(credit(alloc, o, id, a), x) == alloc_sum(alloc, x) + if x == id {
            a as int
        } else {
            0
        },
        credit(alloc, o, id, a).len() == alloc.len(),
{
    if a > 0 {
        lemma_alloc_sum_update(alloc, o, alloc[o].insert(id, (amount(alloc[o], id) + a) as u128), x);
    }
}

/// The sum of the first `i` shares of an even split.
pub open spec fn share_sum(q: u128, r: u128, i: nat) -> int
    decreases i,
{
    if i == 0 {
        0
    } else {
        share_sum(q, r, (i - 1) as nat) + share(q, r, i - 1)
    }
}

proof fn lemma_share_sum(q: u128, r: u128, i: nat)
    ensures
        share_sum(q, r, i) == i * q + if i < r {
            i as int
        } else {
            r as int
        },
    decreases i,
{
    if i > 0 {
        lemma_share_sum(q, r, (i - 1) as nat);
        let prev = share_sum(q, r, (i - 1) as nat);
        assert((i - 1) * q + q == i * q) by (nonlinear_arith);
        assert(share_sum(q, r, i) == prev + share(q, r, i - 1));
        let iq = i * q;
        if i - 1 < r {
            assert(prev == (i - 1) * q + (i - 1));
            assert(share(q, r, i - 1) == q + 1);
            assert(share_sum(q, r, i) == iq + i);
        } else {
            assert(prev == (i - 1) * q + r);
            assert(share(q, r, i - 1) == q);
            assert(share_sum(q, r, i) == iq + r);
        }
    } else {
        assert(0 * q == 0) by (nonlinear_arith);
    }
}

pub(crate) proof fn lemma_destinations_bound(scripts: Seq<Seq<u8>>)
    ensures
        forall|j: int| 0 <= j < destinations(scripts).len() ==> #[trigger] destinations(scripts)[j] < scripts.len(),
    decreases scripts.len(),
{
    if scripts.len() > 0 {
        let p = scripts.drop_last();
        lemma_destinations_bound(p);
        let d = destinations(p);
        assert forall|j: int| 0 <= j < destinations(scripts).len() implies #[trigger] destinations(
            scripts,
        )[j] < scripts.len() by {
            if j < d.len() {
                assert(destinations(scripts)[j] == d[j]);
                assert(d[j] < p.len());
            }
        }
    }
}

/// The indices of the transaction's outputs that are not `OP_RETURN`, in order.
pub fn non_op_return_outputs(tx: &Transaction) -> (d: Vec<usize>)
    ensures
        d@ == destinations(tx@),
        forall|j: int| 0 <= j < d@.len() ==> #[trigger] d@[j] < tx.output@.len(),
{
    let mut d: Vec<usize> = Vec::new();
    let mut i: usize = 0;
    proof {
        assert(tx@.take(0) =~= Seq::<Seq<u8>>::empty());
    }
    while i < tx.output.len()
        invariant
            i <= tx.output@.len(),
            tx@.len() == tx.output@.len(),
            d@ == destinations(tx@.take(i as int)),
        decreases tx.output@.len() - i,
    {
        proof {
            assert(tx@.take(i + 1).drop_last() =~= tx@.take(i as int));
            assert(tx@.take(i + 1).last() == tx.output@[i as int].script_pubkey@);
        }
        if !tx.output[i].is_op_return() {
            d.push(i);
        }
        i = i + 1;
    }
    proof {
        assert(tx@.take(i as int) =~= tx@);
        lemma_destinations_bound(tx@);
    }
    d
}

/// `a` comes before `b`: by block, then by transaction.
pub open spec fn id_lt(a: RelicId, b: RelicId) -> bool {
    a.block < b.block || (a.block == b.block && a.tx < b.tx)
}

/// The ids rise strictly.
pub open spec fn ids_increasing(s: Seq<(RelicId, u128)>) -> bool {
    forall|i: int, j: int| 0 <= i < j < s.len() ==> id_lt(#[trigger] s[i].0, #[trigger] s[j].0)
}

/// Inserting a pair for a new id anywhere adds it to the map.
pub proof fn lemma_map_of_insert(s: Seq<(RelicId, u128)>, p: int, x: (RelicId, u128))
    requires
        keys_distinct(s),
        0 <= p <= s.len(),
        !seq_to_map(s).contains_key(x.0),
    ensures
        keys_distinct(s.insert(p, x)),
        seq_to_map(s.insert(p, x)) == seq_to_map(s).insert(x.0, x.1),
{
    let t = s.insert(p, x);
    lemma_seq_to_map_contains(s, x.0);
    assert(keys_distinct(t)) by {
        assert forall|i: int, j: int| 0 <= i < j < t.len() implies t[i].0 != t[j].0 by {
            if i == p {
                assert(t[j] == s[j - 1]);
            } else if j == p {
                assert(t[i] == s[i]);
            } else {
                let si = if i < p { i } else { i - 1 };
                let sj = if j < p { j } else { j - 1 };
                assert(t[i] == s[si] && t[j] == s[sj]);
            }
        }
    }
    assert forall|k: RelicId| #[trigger] seq_to_map(t).contains_key(k) == seq_to_map(s).insert(x.0, x.1).contains_key(k) by {
        lemma_seq_to_map_contains(t, k);
        lemma_seq_to_map_contains(s, k);
        if seq_to_map(s).contains_key(k) {
            let i = choose|i: int| 0 <= i < s.len() && s[i].0 == k;
            let ti = if i < p { i } else { i + 1 };
            assert(t[ti] == s[i]);
        }
        if k == x.0 {
            assert(t[p] == x);
        }
        if seq_to_map(t).contains_key(k) {
            let i = choose|i: int| 0 <= i < t.len() && t[i].0 == k;
            if i != p {
                let si = if i < p { i } else { i - 1 };
                assert(t[i] == s[si]);
            }
        }
    }
    assert forall|k: RelicId| #[trigger] seq_to_map(t).contains_key(k) implies seq_to_map(t)[k] == seq_to_map(s).insert(x.0, x.1)[k] by {
        lemma_seq_to_map_contains(t, k);
        let i = choose|i: int| 0 <= i < t.len() && t[i].0 == k;
        lemma_seq_to_map_index(t, i);
        if i != p {
            let si = if i < p { i } else { i - 1 };
            assert(t[i] == s[si]);
            lemma_seq_to_map_index(s, si);
        }
    }
    assert(seq_to_map(t) =~= seq_to_map(s).insert(x.0, x.1));
}

/// The pairs sorted by id.
pub fn sort_pairs(pairs: &Vec<(RelicId, u128)>) -> (r: Vec<(RelicId, u128)>)
    requires
        keys_distinct(pairs@),
    ensures
        keys_distinct(r@),
        ids_increasing(r@),
        seq_to_map(r@) == seq_to_map(pairs@),
        r@.len() == pairs@.len(),
{
    let mut out: Vec<(RelicId, u128)> = Vec::new();
    let mut i: usize = 0;
    proof {
        assert(pairs@.take(0) =~= Seq::<(RelicId, u128)>::empty());
        assert(out@ =~= Seq::<(RelicId, u128)>::empty());
    }
    while i < pairs.len()
        invariant
            i <= pairs@.len(),
            keys_distinct(pairs@),
            keys_distinct(out@),
            ids_increasing(out@),
            seq_to_map(out@) == seq_to_map(pairs@.take(i as int)),
            out@.len() == i,
        decreases pairs@.len() - i,
    {
        let x = pairs[i];
        let mut p: usize = out.len();
        while p > 0 && (x.0.block < out[p - 1].0.block || (x.0.block == out[p - 1].0.block
            && x.0.tx < out[p - 1].0.tx))
            invariant
                p <= out@.len(),
                forall|q: int| p <= q < out@.len() ==> id_lt(x.0, #[trigger] out@[q].0),
            decreases p,
        {
            p = p - 1;
        }
        proof {
            let prefix = pairs@.take(i as int);
            assert(pairs@.take(i + 1).drop_last() =~= prefix);
            assert(pairs@.take(i + 1).last() == x);
            lemma_seq_to_map_contains(prefix, x.0);
            assert(!seq_to_map(prefix).contains_key(x.0)) by {
                if seq_to_map(prefix).contains_key(x.0) {
                    let j = choose|j: int| 0 <= j < prefix.len() && prefix[j].0 == x.0;
                    assert(pairs@[j].0 == pairs@[i as int].0);
                }
            }
            lemma_map_of_insert(out@, p as int, x);
            if p > 0 {
                lemma_seq_to_map_contains(out@, out@[p - 1].0);
                lemma_seq_to_map_index(out@, p - 1);
                assert(out@[p - 1].0 != x.0);
            }
        }
        let ghost before = out@;
        out.insert(p, x);
        proof {
            assert(ids_increasing(out@)) by {
                assert forall|a: int, b: int| 0 <= a < b < out@.len() implies id_lt(
                    #[trigger] out@[a].0,
                    #[trigger] out@[b].0,
                ) by {
                    if a == p as int {
                        assert(out@[b] == before[b - 1]);
                    } else if b == p as int {
                        assert(out@[a] == before[a]);
                        if a < p - 1 {
                            assert(id_lt(before[a].0, before[p - 1].0));
                        }
                    } else {
                        let sa = if a < p { a } else { a - 1 };
                        let sb = if b < p { b } else { b - 1 };
                        assert(out@[a] == before[sa] && out@[b] == before[sb]);
                    }
                }
            }
        }
        i = i + 1;
    }
    proof {
        assert(pairs@.take(i as int) =~= pairs@);
    }
    out
}

/// The outputs, in order, that receive relics and are not `OP_RETURN`.
pub open spec fn credited_outputs(scripts: Seq<Seq<u8>>, allocated: Seq<Map<RelicId, u128>>, k: nat) -> Seq<
    int,
>
    decreases k,
{
    if k == 0 {
        Seq::empty()
    } else {
        let prev = credited_outputs(scripts, allocated, (k - 1) as nat);
        if allocated[k - 1].dom().len() > 0 && !spec_is_op_return(scripts[k - 1]) {
            prev.push(k - 1)
        } else {
            prev
        }
    }
}

/// The sum of an id's amounts over the `OP_RETURN` outputs among the first `k`.
pub open spec fn op_return_sum(scripts: Seq<Seq<u8>>, allocated: Seq<Map<RelicId, u128>>, id: RelicId, k: nat) -> int
    decreases k,
{
    if k == 0 {
        0
    } else {
        op_return_sum(scripts, allocated, id, (k - 1) as nat) + if spec_is_op_return(scripts[k - 1]) {
            amount(allocated[k - 1], id) as int
        } else {
            0
        }
    }
}

/// What finalizing a transaction's balances gives: each output that receives relics
/// and is not `OP_RETURN`, with its balances sorted by id; and the relics burned,
/// those allocated to `OP_RETURN` outputs among them.
pub struct Finalized {
    pub outputs: Vec<(u32, Vec<(RelicId, u128)>)>,
    pub burned: Vec<(RelicId, u128)>,
}

/// Balances of relics while a transaction is indexed: what its inputs bring and its
/// keepsake mints, what is allocated to each output, and what is burned.
pub struct RelicsBalance {
    total: Ledger,
    safe: Ledger,
    burned: Ledger,
    allocated: Vec<Ledger>,
}

impl View for RelicsBalance {
    type V = BalanceView;

    closed spec fn view(&self) -> BalanceView {
        BalanceView {
            total: self.total@,
            safe: self.safe@,
            burned: self.burned@,
            allocated: self.allocated@.map_values(|l: Ledger| l@),
        }
    }
}

impl RelicsBalance {
    /// Each ledger holds every id once.
    pub closed spec fn wf(&self) -> bool {
        &&& self.total.wf()
        &&& self.safe.wf()
        &&& self.burned.wf()
        &&& forall|o: int| 0 <= o < self.allocated@.len() ==> #[trigger] self.allocated@[o].wf()
        &&& safe_within_total(self@)
    }

    /// The safe part of a relic's unallocated balance never exceeds the balance, in
    /// every state that the operations reach.
    pub proof fn lemma_safe_within_total(&self)
        requires
            self.wf(),
        ensures
            forall|id: RelicId| #[trigger] amount(self@.safe, id) <= amount(self@.total, id),
    {
    }

    /// The balances of a transaction with `n_outputs` outputs whose inputs (each the
    /// transaction it spends from, and the relics it holds) bring relics: the
    /// unallocated total per relic, and its safe part, which counts the inputs that
    /// spend from transactions not indexed earlier in the block.
    pub fn new(inputs: &[(Txid, Vec<(RelicId, u128)>)], unsafe_txids: &UnsafeTxids, n_outputs: usize) -> (b:
        RelicsBalance)
        requires
            forall|id: RelicId| #[trigger]
                inputs_amount(inputs_view(inputs@), unsafe_txids@, id, false) <= u128::MAX,
        ensures
            b.wf(),
            b@.allocated.len() == n_outputs,
            forall|o: int| 0 <= o < n_outputs ==> #[trigger] b@.allocated[o] == Map::<
                RelicId,
                u128,
            >::empty(),
            b@.burned == Map::<RelicId, u128>::empty(),
            forall|id: RelicId|
                #[trigger] amount(b@.total, id) == inputs_amount(inputs_view(inputs@), unsafe_txids@, id, false)
                    && amount(b@.safe, id) == inputs_amount(inputs_view(inputs@), unsafe_txids@, id, true),
            b@ == opening(flagged_inputs(inputs_view(inputs@), unsafe_txids@), n_outputs as nat),
    {
        let flagged = unsafe_txids.flag_inputs(inputs);
        proof {
            assert forall|id: RelicId| #[trigger] input_sum(flagged@, id, false) <= u128::MAX by {
                lemma_flagged_sums(inputs_view(inputs@), unsafe_txids@, id, false);
            }
        }
        let b = RelicsBalance::from_flagged(flagged.as_slice(), n_outputs);
        proof {
            assert forall|id: RelicId|
                #[trigger] amount(b@.total, id) == inputs_amount(inputs_view(inputs@), unsafe_txids@, id, false)
                    && amount(b@.safe, id) == inputs_amount(inputs_view(inputs@), unsafe_txids@, id, true) by {
                lemma_flagged_sums(inputs_view(inputs@), unsafe_txids@, id, false);
                lemma_flagged_sums(inputs_view(inputs@), unsafe_txids@, id, true);
            }
        }
        b
    }

    /// The balances of a transaction with `n_outputs` outputs whose inputs hold the
    /// given balances (relic, amount, whether the input's relics are safe):
    /// the unallocated total per relic, and the safe part of it.
    pub fn from_flagged(inputs: &[(RelicId, u128, bool)], n_outputs: usize) -> (b: RelicsBalance)
        requires
            forall|id: RelicId| #[trigger] input_sum(inputs@, id, false) <= u128::MAX,
        ensures
            b.wf(),
            b@.allocated.len() == n_outputs,
            forall|o: int| 0 <= o < n_outputs ==> #[trigger] b@.allocated[o] == Map::<
                RelicId,
                u128,
            >::empty(),
            b@.burned == Map::<RelicId, u128>::empty(),
            forall|id: RelicId|
                #[trigger] amount(b@.total, id) == input_sum(inputs@, id, false) && amount(
                    b@.safe,
                    id,
                ) == input_sum(inputs@, id, true),
            forall|id: RelicId| #[trigger]
                b@.total.contains_key(id) <==> input_names(inputs@, id, false),
            forall|id: RelicId| #[trigger]
                b@.safe.contains_key(id) <==> input_names(inputs@, id, true),
            b@ == opening(inputs@, n_outputs as nat),
    {
        let mut total = Ledger::new();
        let mut safe = Ledger::new();
        let mut i: usize = 0;
        while i < inputs.len()
            invariant
                i <= inputs@.len(),
                total.wf(),
                safe.wf(),
                forall|id: RelicId| #[trigger] input_sum(inputs@, id, false) <= u128::MAX,
                forall|id: RelicId|
                    #[trigger] amount(total@, id) == input_sum(inputs@.take(i as int), id, false)
                        && amount(safe@, id) == input_sum(inputs@.take(i as int), id, true),
                forall|id: RelicId| #[trigger]
                    total@.contains_key(id) <==> input_names(inputs@.take(i as int), id, false),
                forall|id: RelicId| #[trigger]
                    safe@.contains_key(id) <==> input_names(inputs@.take(i as int), id, true),
            decreases inputs@.len() - i,
        {
            let (id, balance, is_safe) = inputs[i];
            let ghost prefix = inputs@.take(i as int);
            let ghost next = inputs@.take(i + 1);
            let ghost total_before = total@;
            let ghost safe_before = safe@;
            proof {
                assert(next.drop_last() =~= prefix);
                assert(next.last() == (id, balance, is_safe));
                lemma_input_sum_prefix(inputs@, id, false, i + 1);
                lemma_input_sum_safe_le(next, id);
                lemma_input_sum_nonneg(prefix, id, true);
            }
            total.add(id, balance);
            if is_safe {
                safe.add(id, balance);
            }
            proof {
                assert forall|k: RelicId|
                    #[trigger] amount(total@, k) == input_sum(next, k, false) && amount(safe@, k)
                        == input_sum(next, k, true) by {
                    assert(amount(total_before, k) == input_sum(prefix, k, false));
                    assert(amount(safe_before, k) == input_sum(prefix, k, true));
                }
                assert forall|k: RelicId| #[trigger]
                    total@.contains_key(k) <==> input_names(next, k, false) by {
                    if input_names(next, k, false) && k != id {
                        let j = choose|j: int| 0 <= j < next.len() && next[j].0 == k;
                        assert(prefix[j].0 == k);
                    }
                    if input_names(prefix, k, false) {
                        let j = choose|j: int| 0 <= j < prefix.len() && prefix[j].0 == k;
                        assert(next[j].0 == k);
                    }
                    if k == id {
                        assert(next[i as int].0 == k);
                    }
                }
                assert forall|k: RelicId| #[trigger]
                    safe@.contains_key(k) <==> input_names(next, k, true) by {
                    if input_names(next, k, true) && !(k == id && is_safe) {
                        let j = choose|j: int| 0 <= j < next.len() && next[j].0 == k && next[j].2;
                        assert(prefix[j].0 == k && prefix[j].2);
                    }
                    if input_names(prefix, k, true) {
                        let j = choose|j: int| 0 <= j < prefix.len() && prefix[j].0 == k && prefix[j].2;
                        assert(next[j].0 == k && next[j].2);
                    }
                    if k == id && is_safe {
                        assert(next[i as int].0 == k && next[i as int].2);
                    }
                }
            }
            i = i + 1;
        }
        proof {
            assert(inputs@.take(inputs@.len() as int) =~= inputs@);
        }
        let mut allocated: Vec<Ledger> = Vec::new();
        let mut o: usize = 0;
        while o < n_outputs
            invariant
                o <= n_outputs,
                allocated@.len() == o,
                forall|k: int| 0 <= k < o ==> (#[trigger] allocated@[k]).wf() && allocated@[k]@
                    == Map::<RelicId, u128>::empty(),
            decreases n_outputs - o,
        {
            allocated.push(Ledger::new());
            o = o + 1;
        }
        let b = RelicsBalance { total, safe, burned: Ledger::new(), allocated };
        proof {
            assert forall|k: RelicId| #[trigger] amount(b@.safe, k) <= amount(b@.total, k) by {
                lemma_input_sum_safe_le(inputs@, k);
            }
            assert forall|o: int| 0 <= o < n_outputs implies #[trigger] b@.allocated[o] == Map::<
                RelicId,
                u128,
            >::empty() by {
                assert(b@.allocated[o] == b.allocated@[o]@);
                assert(b.allocated@[o].wf());
            }
            let o = opening(inputs@, n_outputs as nat);
            assert forall|id: RelicId| #[trigger] o.total.contains_key(id) implies b@.total[id] == o.total[id] by {
                lemma_input_sum_nonneg(inputs@, id, false);
                assert(amount(b@.total, id) == input_sum(inputs@, id, false));
            }
            assert forall|id: RelicId| #[trigger] o.safe.contains_key(id) implies b@.safe[id] == o.safe[id] by {
                lemma_input_sum_nonneg(inputs@, id, true);
                lemma_input_sum_safe_le(inputs@, id);
                assert(amount(b@.safe, id) == input_sum(inputs@, id, true));
            }
            assert forall|id: RelicId| #[trigger] b@.total.contains_key(id) == o.total.contains_key(id) by {}
            assert forall|id: RelicId| #[trigger] b@.safe.contains_key(id) == o.safe.contains_key(id) by {}
            assert(b@.total =~= o.total);
            assert(b@.safe =~= o.safe);
            assert(b@.allocated =~= o.allocated);
            assert(b@ =~= o);
        }
        b
    }

    /// The unallocated amount of a relic.
    pub fn get(&self, id: RelicId) -> (r: u128)
        requires
            self.wf(),
        ensures
            r == amount(self@.total, id),
    {
        self.total.get(id)
    }

    /// The safe part of the unallocated amount of a relic.
    pub fn get_safe(&self, id: RelicId) -> (r: u128)
        requires
            self.wf(),
        ensures
            r == amount(self@.safe, id),
    {
        self.safe.get(id)
    }

    /// Takes `amount` of a relic from the unallocated balance, spending the safe
    /// part last: the safe part shrinks only where it would exceed what is left.
    pub fn remove(&mut self, id: RelicId, value: u128)
        requires
            old(self).wf(),
            amount(old(self)@.total, id) >= value,
        ensures
            final(self).wf(),
            final(self)@.total == old(self)@.total.insert(
                id,
                (amount(old(self)@.total, id) - value) as u128,
            ),
            final(self)@.safe == old(self)@.safe.insert(
                id,
                if amount(old(self)@.total, id) - value < amount(old(self)@.safe, id) {
                    (amount(old(self)@.total, id) - value) as u128
                } else {
                    amount(old(self)@.safe, id)
                },
            ),
            final(self)@.burned == old(self)@.burned,
            final(self)@.allocated == old(self)@.allocated,
    {
        let total = self.total.get(id);
        let safe = self.safe.get(id);
        let left = total - value;
        self.total.set(id, left);
        if left < safe {
            self.safe.set(id, left);
        } else {
            self.safe.set(id, safe);
        }
        proof {
            lemma_safe_kept(old(self)@, self@, id);
        }
    }

    /// Takes `amount` of a relic from the unallocated balance and from its safe part.
    pub fn remove_safe(&mut self, id: RelicId, value: u128)
        requires
            old(self).wf(),
            amount(old(self)@.total, id) >= value,
            amount(old(self)@.safe, id) >= value,
        ensures
            final(self).wf(),
            final(self)@.total == old(self)@.total.insert(
                id,
                (amount(old(self)@.total, id) - value) as u128,
            ),
            final(self)@.safe == old(self)@.safe.insert(
                id,
                (amount(old(self)@.safe, id) - value) as u128,
            ),
            final(self)@.burned == old(self)@.burned,
            final(self)@.allocated == old(self)@.allocated,
    {
        let total = self.total.get(id);
        self.total.set(id, total - value);
        let safe = self.safe.get(id);
        self.safe.set(id, safe - value);
        proof {
            lemma_safe_kept(old(self)@, self@, id);
        }
    }

    /// Adds to the unallocated balance, not to its safe part.
    pub fn add(&mut self, id: RelicId, value: u128)
        requires
            old(self).wf(),
            amount(old(self)@.total, id) + value <= u128::MAX,
        ensures
            final(self).wf(),
            final(self)@.total == old(self)@.total.insert(
                id,
                (amount(old(self)@.total, id) + value) as u128,
            ),
            final(self)@.safe == old(self)@.safe,
            final(self)@.burned == old(self)@.burned,
            final(self)@.allocated == old(self)@.allocated,
    {
        self.total.add(id, value);
        proof {
            assert(amount(old(self)@.safe, id) <= amount(old(self)@.total, id));
            lemma_safe_kept(old(self)@, self@, id);
        }
    }

    /// Adds to the unallocated balance and to its safe part.
    pub fn add_safe(&mut self, id: RelicId, value: u128)
        requires
            old(self).wf(),
            amount(old(self)@.total, id) + value <= u128::MAX,
            amount(old(self)@.safe, id) + value <= u128::MAX,
        ensures
            final(self).wf(),
            final(self)@.total == old(self)@.total.insert(
                id,
                (amount(old(self)@.total, id) + value) as u128,
            ),
            final(self)@.safe == old(self)@.safe.insert(
                id,
                (amount(old(self)@.safe, id) + value) as u128,
            ),
            final(self)@.burned == old(self)@.burned,
            final(self)@.allocated == old(self)@.allocated,
    {
        self.total.add(id, value);
        self.safe.add(id, value);
        proof {
            lemma_safe_kept(old(self)@, self@, id);
        }
    }

    /// Adds to what is burned.
    pub fn burn(&mut self, id: RelicId, value: u128)
        requires
            old(self).wf(),
            amount(old(self)@.burned, id) + value <= u128::MAX,
        ensures
            final(self).wf(),
            final(self)@.burned == old(self)@.burned.insert(
                id,
                (amount(old(self)@.burned, id) + value) as u128,
            ),
            final(self)@.total == old(self)@.total,
            final(self)@.safe == old(self)@.safe,
            final(self)@.allocated == old(self)@.allocated,
    {
        self.burned.add(id, value);
        proof {
            assert(self@.total == old(self)@.total && self@.safe == old(self)@.safe);
        }
    }

    /// Burns all unallocated relics.
    pub fn burn_all(&mut self)
        requires
            old(self).wf(),
            forall|id: RelicId|
                #[trigger] amount(old(self)@.burned, id) + amount(old(self)@.total, id)
                    <= u128::MAX,
        ensures
            final(self).wf(),
            forall|id: RelicId|
                #[trigger] amount(final(self)@.burned, id) == amount(old(self)@.burned, id)
                    + amount(old(self)@.total, id),
            final(self)@.burned.dom() == old(self)@.burned.dom().union(old(self)@.total.dom()),
            final(self)@.total == Map::<RelicId, u128>::empty(),
            final(self)@.safe == Map::<RelicId, u128>::empty(),
            final(self)@.allocated == old(self)@.allocated,
    {
        proof {
            self.total.lemma_pairs();
        }
        let ghost pairs = self.total.pairs();
        let n = self.total.len();
        let mut i: usize = 0;
        proof {
            assert(pairs.take(0) =~= Seq::<(RelicId, u128)>::empty());
            assert(self@.burned.dom() =~= old(self)@.burned.dom().union(
                seq_to_map(pairs.take(0)).dom(),
            ));
        }
        while i < n
            invariant
                self.wf(),
                n == pairs.len(),
                i <= n,
                pairs == self.total.pairs(),
                self.total == old(self).total,
                self.safe == old(self).safe,
                self.allocated == old(self).allocated,
                keys_distinct(pairs),
                old(self)@.total == seq_to_map(pairs),
                forall|id: RelicId|
                    #[trigger] amount(old(self)@.burned, id) + amount(old(self)@.total, id)
                        <= u128::MAX,
                forall|id: RelicId|
                    #[trigger] amount(self@.burned, id) == amount(old(self)@.burned, id) + amount(
                        seq_to_map(pairs.take(i as int)),
                        id,
                    ),
                self@.burned.dom() == old(self)@.burned.dom().union(
                    seq_to_map(pairs.take(i as int)).dom(),
                ),
            decreases n - i,
        {
            let ghost v0 = self@;
            let (id, balance) = self.total.entry(i);
            let ghost done = seq_to_map(pairs.take(i as int));
            proof {
                assert(pairs.take(i + 1).drop_last() =~= pairs.take(i as int));
                assert(pairs.take(i + 1).last() == pairs[i as int]);
                lemma_seq_to_map_index(pairs, i as int);
                lemma_seq_to_map_contains(pairs.take(i as int), id);
                if done.contains_key(id) {
                    let k = choose|k: int| 0 <= k < i && pairs.take(i as int)[k].0 == id;
                    assert(pairs.take(i as int)[k] == pairs[k]);
                    assert(pairs[k].0 == pairs[i as int].0);
                }
            }
            let ghost burned_before = self@.burned;
            self.burned.add(id, balance);
            proof {
                assert(seq_to_map(pairs.take(i + 1)) == done.insert(id, balance));
                assert forall|x: RelicId|
                    #[trigger] amount(self@.burned, x) == amount(old(self)@.burned, x) + amount(
                        seq_to_map(pairs.take(i + 1)),
                        x,
                    ) by {
                    assert(amount(burned_before, x) == amount(old(self)@.burned, x) + amount(done, x));
                }
                assert(self@.burned.dom() =~= old(self)@.burned.dom().union(
                    seq_to_map(pairs.take(i + 1)).dom(),
                ));
                assert(self@.total == v0.total && self@.safe == v0.safe);
                assert forall|k: RelicId| #[trigger] amount(self@.safe, k) <= amount(self@.total, k) by {
                    assert(amount(v0.safe, k) <= amount(v0.total, k));
                }
            }
            i = i + 1;
        }
        self.total.clear();
        self.safe.clear();
        proof {
            assert(pairs.take(n as int) =~= pairs);
            assert forall|k: RelicId| #[trigger] amount(self@.safe, k) <= amount(self@.total, k) by {}
        }
    }

    /// Adds `value` of a relic to output `o`, where it is not zero.
    fn credit(&mut self, o: usize, id: RelicId, value: u128)
        requires
            old(self).wf(),
            o < old(self)@.allocated.len(),
            value > 0 ==> amount(old(self)@.allocated[o as int], id) + value <= u128::MAX,
        ensures
            final(self).wf(),
            final(self)@.allocated == credit(old(self)@.allocated, o as int, id, value),
            final(self).total == old(self).total,
            final(self).safe == old(self).safe,
            final(self).burned == old(self).burned,
    {
        if value > 0 {
            let mut l = Ledger::new();
            self.allocated.set_and_swap(o, &mut l);
            proof {
                assert(old(self).allocated@[o as int].wf());
            }
            l.add(id, value);
            let ghost l_view = l@;
            self.allocated.set_and_swap(o, &mut l);
            proof {
                assert(self@.total == old(self)@.total && self@.safe == old(self)@.safe);
                assert forall|k: RelicId| #[trigger] amount(self@.safe, k) <= amount(self@.total, k) by {
                    assert(amount(old(self)@.safe, k) <= amount(old(self)@.total, k));
                }
                assert(self@.allocated =~= credit(old(self)@.allocated, o as int, id, value));
                assert forall|k: int| 0 <= k < self.allocated@.len() implies #[trigger] self.allocated@[k].wf() by {
                    if k != o {
                        assert(self.allocated@[k] == old(self).allocated@[k]);
                    }
                }
            }
        }
    }

    /// Allocates `value` of a relic to an output, where it is not zero.
    pub fn allocate(&mut self, output: usize, id: RelicId, value: u128)
        requires
            old(self).wf(),
            output < old(self)@.allocated.len(),
            value > 0 ==> amount(old(self)@.allocated[output as int], id) + value <= u128::MAX,
        ensures
            final(self).wf(),
            final(self)@.allocated == credit(old(self)@.allocated, output as int, id, value),
            final(self)@.total == old(self)@.total,
            final(self)@.safe == old(self)@.safe,
            final(self)@.burned == old(self)@.burned,
    {
        self.credit(output, id, value);
    }

    /// Allocates all unallocated relics to an output.
    pub fn allocate_all(&mut self, output: usize)
        requires
            old(self).wf(),
            output < old(self)@.allocated.len() || old(self)@.total == Map::<RelicId, u128>::empty(),
            output < old(self)@.allocated.len() ==> forall|id: RelicId|
                #[trigger] amount(old(self)@.allocated[output as int], id) + amount(
                    old(self)@.total,
                    id,
                ) <= u128::MAX,
        ensures
            final(self).wf(),
            final(self)@.total == Map::<RelicId, u128>::empty(),
            final(self)@.safe == Map::<RelicId, u128>::empty(),
            final(self)@.burned == old(self)@.burned,
            final(self)@.allocated.len() == old(self)@.allocated.len(),
            forall|k: int|
                0 <= k < old(self)@.allocated.len() && k != output
                    ==> #[trigger] final(self)@.allocated[k] == old(self)@.allocated[k],
            output < old(self)@.allocated.len() ==> forall|id: RelicId|
                #[trigger] amount(final(self)@.allocated[output as int], id) == amount(
                    old(self)@.allocated[output as int],
                    id,
                ) + amount(old(self)@.total, id),
            output < old(self)@.allocated.len() ==> forall|id: RelicId| #[trigger]
                final(self)@.allocated[output as int].contains_key(id) <==> (
                old(self)@.allocated[output as int].contains_key(id) || (
                old(self)@.total.contains_key(id) && old(self)@.total[id] > 0)),
    {
        if output < self.allocated.len() {
            proof {
                self.total.lemma_pairs();
                assert(old(self).allocated@[output as int].wf());
            }
            let ghost pairs = self.total.pairs();
            let ghost l0 = self.allocated@[output as int]@;
            proof {
                assert(l0 == old(self)@.allocated[output as int]);
            }
            let mut l = Ledger::new();
            self.allocated.set_and_swap(output, &mut l);
            let n = self.total.len();
            let mut i: usize = 0;
            proof {
                assert(pairs.take(0) =~= Seq::<(RelicId, u128)>::empty());
            }
            while i < n
                invariant
                    l.wf(),
                    self.total.wf(),
                    n == pairs.len(),
                    i <= n,
                    pairs == self.total.pairs(),
                    self.total == old(self).total,
                    keys_distinct(pairs),
                    old(self)@.total == seq_to_map(pairs),
                    forall|id: RelicId|
                        #[trigger] amount(l0, id) + amount(old(self)@.total, id) <= u128::MAX,
                    forall|id: RelicId|
                        #[trigger] amount(l@, id) == amount(l0, id) + amount(
                            seq_to_map(pairs.take(i as int)),
                            id,
                        ),
                    forall|id: RelicId| #[trigger]
                        l@.contains_key(id) <==> (l0.contains_key(id) || (seq_to_map(
                            pairs.take(i as int),
                        ).contains_key(id) && seq_to_map(pairs.take(i as int))[id] > 0)),
                decreases n - i,
            {
                let (id, balance) = self.total.entry(i);
                let ghost done = seq_to_map(pairs.take(i as int));
                let ghost l_before = l@;
                proof {
                    assert(pairs.take(i + 1).drop_last() =~= pairs.take(i as int));
                    assert(pairs.take(i + 1).last() == pairs[i as int]);
                    lemma_seq_to_map_index(pairs, i as int);
                    lemma_seq_to_map_contains(pairs.take(i as int), id);
                    if done.contains_key(id) {
                        let k = choose|k: int| 0 <= k < i && pairs.take(i as int)[k].0 == id;
                        assert(pairs.take(i as int)[k] == pairs[k]);
                        assert(pairs[k].0 == pairs[i as int].0);
                    }
                    assert(seq_to_map(pairs.take(i + 1)) == done.insert(id, balance));
                }
                if balance > 0 {
                    l.add(id, balance);
                }
                proof {
                    assert forall|x: RelicId|
                        #[trigger] amount(l@, x) == amount(l0, x) + amount(
                            seq_to_map(pairs.take(i + 1)),
                            x,
                        ) by {
                        assert(amount(l_before, x) == amount(l0, x) + amount(done, x));
                    }
                    assert forall|x: RelicId| #[trigger]
                        l@.contains_key(x) <==> (l0.contains_key(x) || (seq_to_map(
                            pairs.take(i + 1),
                        ).contains_key(x) && seq_to_map(pairs.take(i + 1))[x] > 0)) by {
                        assert(l_before.contains_key(x) <==> (l0.contains_key(x) || (
                        done.contains_key(x) && done[x] > 0)));
                    }
                }
                i = i + 1;
            }
            let ghost l_final = l@;
            self.allocated.set_and_swap(output, &mut l);
            proof {
                assert(pairs.take(n as int) =~= pairs);
                assert forall|k: int| 0 <= k < self.allocated@.len() implies #[trigger] self.allocated@[k].wf() by {
                    if k != output {
                        assert(self.allocated@[k] == old(self).allocated@[k]);
                    }
                }
                assert(self@.allocated[output as int] == l_final);
                assert forall|k: int|
                    0 <= k < old(self)@.allocated.len() && k != output implies #[trigger] self@.allocated[k]
                        == old(self)@.allocated[k] by {
                    assert(self.allocated@[k] == old(self).allocated@[k]);
                }
            }
        }
        self.total.clear();
        self.safe.clear();
        proof {
            assert forall|k: RelicId| #[trigger] amount(self@.safe, k) <= amount(self@.total, k) by {}
        }
    }

    /// One transfer, as `transfer_step` describes it.
    fn transfer_one(&mut self, t: Transfer, default: Option<RelicId>, dests: &Vec<usize>, n: usize)
        requires
            old(self).wf(),
            old(self)@.allocated.len() == n,
            t.output <= n,
            forall|j: int| 0 <= j < dests@.len() ==> #[trigger] dests@[j] < n,
            forall|x: RelicId| #[trigger] held(old(self)@, x) <= u128::MAX,
            old(self)@.safe == Map::<RelicId, u128>::empty(),
        ensures
            final(self).wf(),
            final(self)@ == transfer_step(old(self)@, t, default, dests@, n as nat),
            final(self)@.allocated.len() == n,
            forall|x: RelicId| #[trigger] held(final(self)@, x) == held(old(self)@, x),
    {
        let id = if t.id.block == 0 && t.id.tx == 0 {
            match default {
                Some(d) => d,
                None => {
                    proof {
                        assert(self@ =~= transfer_step(old(self)@, t, default, dests@, n as nat));
                    }
                    return;
                },
            }
        } else {
            t.id
        };
        proof {
            assert(transfer_target(t, default) == Some(id));
        }
        if !self.total.contains(id) {
            proof {
                assert(self@ =~= transfer_step(old(self)@, t, default, dests@, n as nat));
            }
            return;
        }
        let bal = self.total.get(id);
        let ghost v0 = self@;
        proof {
            assert(held(v0, id) <= u128::MAX);
            lemma_alloc_sum_nonneg(v0.allocated, id);
        }
        if t.output as usize == n {
            if dests.len() == 0 {
                proof {
                    assert(self@ =~= transfer_step(old(self)@, t, default, dests@, n as nat));
                }
                return;
            }
            if t.amount == 0 {
                let len: u128 = dests.len() as u128;
                let q: u128 = bal / len;
                let r: u128 = bal % len;
                proof {
                    assert(bal == q * len + r) by (nonlinear_arith)
                        requires
                            q == bal / len,
                            r == bal % len,
                            len > 0,
                    ;
                    assert(share_sum(q, r, 0) == 0);
                }
                let mut cur: u128 = bal;
                let mut j: usize = 0;
                while j < dests.len()
                    invariant
                        self.wf(),
                        j <= dests@.len(),
                        len == dests@.len(),
                        len > 0,
                        q == bal / len,
                        r == bal % len,
                        r < len,
                        bal == q * len + r,
                        bal == amount(v0.total, id),
                        v0.total.contains_key(id),
                        cur == bal - share_sum(q, r, j as nat),
                        self@.allocated == even_split(v0.allocated, dests@, id, q, r, j as nat),
                        self@.allocated.len() == n,
                        self@.total == v0.total,
                        self@.safe == v0.safe,
                        self@.burned == v0.burned,
                        forall|k: int| 0 <= k < dests@.len() ==> #[trigger] dests@[k] < n,
                        amount(v0.total, id) + alloc_sum(v0.allocated, id) <= u128::MAX,
                        forall|x: RelicId|
                            #[trigger] alloc_sum(self@.allocated, x) == alloc_sum(v0.allocated, x)
                                + if x == id {
                                share_sum(q, r, j as nat)
                            } else {
                                0
                            },
                    decreases dests@.len() - j,
                {
                    proof {
                        lemma_share_sum(q, r, j as nat);
                        assert(q * len - j * q >= q) by (nonlinear_arith)
                            requires
                                j + 1 <= len,
                        ;
                        lemma_alloc_sum_bounds(self@.allocated, id, dests@[j as int] as int);
                    }
                    let sh: u128 = if (j as u128) < r {
                        q + 1
                    } else {
                        q
                    };
                    let ghost before = self@.allocated;
                    self.credit(dests[j], id, sh);
                    proof {
                        assert forall|x: RelicId|
                            #[trigger] alloc_sum(self@.allocated, x) == alloc_sum(v0.allocated, x)
                                + if x == id {
                                share_sum(q, r, (j + 1) as nat)
                            } else {
                                0
                            } by {
                            lemma_credit_sum(before, dests@[j as int] as int, id, sh, x);
                        }
                    }
                    cur = cur - sh;
                    j = j + 1;
                }
                proof {
                    lemma_share_sum(q, r, len as nat);
                    assert(len * q == q * len) by (nonlinear_arith);
                }
                self.total.set(id, cur);
                proof {
                    assert(self@ =~= transfer_step(old(self)@, t, default, dests@, n as nat));
                    assert forall|x: RelicId| #[trigger] held(self@, x) == held(old(self)@, x) by {}
                }
            } else {
                let mut cur: u128 = bal;
                let mut j: usize = 0;
                while j < dests.len()
                    invariant
                        self.wf(),
                        j <= dests@.len(),
                        t.amount > 0,
                        bal == amount(v0.total, id),
                        v0.total.contains_key(id),
                        cur <= bal,
                        fill(v0.allocated, bal, dests@, id, t.amount, j as nat) == (self@.allocated, cur),
                        self@.allocated.len() == n,
                        self@.total == v0.total,
                        self@.safe == v0.safe,
                        self@.burned == v0.burned,
                        forall|k: int| 0 <= k < dests@.len() ==> #[trigger] dests@[k] < n,
                        amount(v0.total, id) + alloc_sum(v0.allocated, id) <= u128::MAX,
                        forall|x: RelicId|
                            #[trigger] alloc_sum(self@.allocated, x) == alloc_sum(v0.allocated, x)
                                + if x == id {
                                bal - cur
                            } else {
                                0
                            },
                    decreases dests@.len() - j,
                {
                    let x: u128 = if t.amount < cur {
                        t.amount
                    } else {
                        cur
                    };
                    proof {
                        lemma_alloc_sum_bounds(self@.allocated, id, dests@[j as int] as int);
                    }
                    let ghost before = self@.allocated;
                    self.credit(dests[j], id, x);
                    proof {
                        assert forall|y: RelicId|
                            #[trigger] alloc_sum(self@.allocated, y) == alloc_sum(v0.allocated, y)
                                + if y == id {
                                bal - (cur - x)
                            } else {
                                0
                            } by {
                            lemma_credit_sum(before, dests@[j as int] as int, id, x, y);
                        }
                    }
                    cur = cur - x;
                    j = j + 1;
                }
                self.total.set(id, cur);
                proof {
                    assert(self@ =~= transfer_step(old(self)@, t, default, dests@, n as nat));
                    assert forall|x: RelicId| #[trigger] held(self@, x) == held(old(self)@, x) by {}
                }
            }
        } else {
            let a: u128 = if t.amount == 0 || t.amount > bal {
                bal
            } else {
                t.amount
            };
            proof {
                lemma_alloc_sum_bounds(self@.allocated, id, t.output as int);
            }
            let ghost before = self@.allocated;
            self.credit(t.output as usize, id, a);
            self.total.set(id, bal - a);
            proof {
                assert(self@ =~= transfer_step(old(self)@, t, default, dests@, n as nat));
                assert forall|x: RelicId| #[trigger] held(self@, x) == held(old(self)@, x) by {
                    lemma_credit_sum(before, t.output as int, id, a, x);
                }
            }
        }
    }

    /// Allocates relics by the keepsake's transfers, in order; a transfer of id `0:0`
    /// moves the `default` relic (the one enshrined by the same transaction). The
    /// safe balance is dropped. Each relic's unallocated and allocated amounts
    /// together stay the same.
    pub fn allocate_transfers(&mut self, transfers: &[Transfer], default: Option<RelicId>, tx: &Transaction)
        requires
            old(self).wf(),
            old(self)@.allocated.len() == tx.output@.len(),
            forall|k: int| 0 <= k < transfers@.len() ==> #[trigger] transfers@[k].output <= tx.output@.len(),
            forall|x: RelicId| #[trigger] held(old(self)@, x) <= u128::MAX,
        ensures
            final(self).wf(),
            final(self)@ == transfers_fold(
                BalanceView {
                    total: old(self)@.total,
                    safe: Map::empty(),
                    burned: old(self)@.burned,
                    allocated: old(self)@.allocated,
                },
                transfers@,
                default,
                destinations(tx@),
                tx.output@.len(),
            ),
            forall|x: RelicId| #[trigger] held(final(self)@, x) == held(old(self)@, x),
            final(self)@.burned == old(self)@.burned,
            final(self)@.safe == Map::<RelicId, u128>::empty(),
            final(self)@.allocated.len() == old(self)@.allocated.len(),
    {
        self.safe.clear();
        let dests = non_op_return_outputs(tx);
        let n = tx.output.len();
        let ghost v0 = self@;
        let mut k: usize = 0;
        proof {
            assert(transfers@.take(0) =~= Seq::<Transfer>::empty());
        }
        while k < transfers.len()
            invariant
                self.wf(),
                k <= transfers@.len(),
                n == tx.output@.len(),
                dests@ == destinations(tx@),
                forall|j: int| 0 <= j < dests@.len() ==> #[trigger] dests@[j] < n,
                forall|j: int| 0 <= j < transfers@.len() ==> #[trigger] transfers@[j].output <= n,
                self@ == transfers_fold(v0, transfers@.take(k as int), default, dests@, n as nat),
                self@.allocated.len() == n,
                self@.safe == Map::<RelicId, u128>::empty(),
                self@.burned == old(self)@.burned,
                v0.total == old(self)@.total,
                v0.allocated == old(self)@.allocated,
                forall|x: RelicId| #[trigger] held(self@, x) == held(old(self)@, x),
                forall|x: RelicId| #[trigger] held(old(self)@, x) <= u128::MAX,
            decreases transfers@.len() - k,
        {
            proof {
                assert(transfers@.take(k + 1).drop_last() =~= transfers@.take(k as int));
                assert(transfers@.take(k + 1).last() == transfers@[k as int]);
            }
            self.transfer_one(transfers[k], default, &dests, n);
            k = k + 1;
        }
        proof {
            assert(transfers@.take(k as int) =~= transfers@);
            assert(v0 =~= BalanceView {
                total: old(self)@.total,
                safe: Map::empty(),
                burned: old(self)@.burned,
                allocated: old(self)@.allocated,
            });
        }
    }

    /// Assigns the allocated relics to the outputs: the balances of each output that
    /// is not `OP_RETURN`, sorted by id, and what is burned, including all that is
    /// allocated to `OP_RETURN` outputs.
    pub fn finalize(self, tx: &Transaction, txid: Txid, unsafe_txids: &mut UnsafeTxids) -> (r: Finalized)
        requires
            self.wf(),
            self@.allocated.len() == tx.output@.len(),
            tx.output@.len() <= u32::MAX,
            forall|id: RelicId|
                #[trigger] amount(self@.burned, id) + op_return_sum(
                    tx@,
                    self@.allocated,
                    id,
                    tx.output@.len() as nat,
                ) <= u128::MAX,
        ensures
            forall|id: RelicId|
                #[trigger] amount(seq_to_map(r.burned@), id) == amount(self@.burned, id)
                    + op_return_sum(tx@, self@.allocated, id, tx.output@.len() as nat),
            keys_distinct(r.burned@),
            r.outputs@.len() == credited_outputs(tx@, self@.allocated, tx.output@.len() as nat).len(),
            forall|j: int|
                0 <= j < r.outputs@.len() ==> {
                    let vout = credited_outputs(tx@, self@.allocated, tx.output@.len() as nat)[j];
                    &&& (#[trigger] r.outputs@[j]).0 == vout
                    &&& seq_to_map(r.outputs@[j].1@) == self@.allocated[vout]
                    &&& ids_increasing(r.outputs@[j].1@)
                },
            final(unsafe_txids)@ == old(unsafe_txids)@.insert(txid),
    {
        let ghost v = self@;
        let RelicsBalance { total: _, safe: _, mut burned, allocated } = self;
        let n = tx.output.len();
        let ghost alloc = allocated@.map_values(|l: Ledger| l@);
        let ghost burned0 = burned@;
        proof {
            assert(alloc == v.allocated);
            assert(burned0 == v.burned);
        }
        let mut outputs: Vec<(u32, Vec<(RelicId, u128)>)> = Vec::new();
        let mut vout: usize = 0;
        proof {
            assert(tx@.len() == n);
        }
        while vout < n
            invariant
                vout <= n,
                n == tx.output@.len(),
                tx@.len() == n,
                n <= u32::MAX,
                allocated@.len() == n,
                alloc == allocated@.map_values(|l: Ledger| l@),
                forall|o: int| 0 <= o < allocated@.len() ==> #[trigger] allocated@[o].wf(),
                burned.wf(),
                forall|id: RelicId|
                    #[trigger] amount(burned0, id) + op_return_sum(tx@, alloc, id, n as nat)
                        <= u128::MAX,
                forall|id: RelicId|
                    #[trigger] amount(burned@, id) == amount(burned0, id) + op_return_sum(
                        tx@,
                        alloc,
                        id,
                        vout as nat,
                    ),
                outputs@.len() == credited_outputs(tx@, alloc, vout as nat).len(),
                forall|j: int|
                    0 <= j < outputs@.len() ==> {
                        let v = credited_outputs(tx@, alloc, vout as nat)[j];
                        &&& (#[trigger] outputs@[j]).0 == v
                        &&& seq_to_map(outputs@[j].1@) == alloc[v]
                        &&& ids_increasing(outputs@[j].1@)
                    },
            decreases n - vout,
        {
            proof {
                assert(alloc[vout as int] == allocated@[vout as int]@);
                assert(tx@[vout as int] == tx.output@[vout as int].script_pubkey@);
                allocated@[vout as int].lemma_pairs();
                lemma_op_return_sum_mono(tx@, alloc, vout as nat, n as nat);
            }
            let len = allocated[vout].len();
            if len > 0 {
                if tx.output[vout].is_op_return() {
                    let mut k: usize = 0;
                    let ghost pairs = allocated@[vout as int].pairs();
                    let ghost burned_start = burned@;
                    proof {
                        assert(pairs.take(0) =~= Seq::<(RelicId, u128)>::empty());
                    }
                    while k < len
                        invariant
                            k <= len,
                            len == pairs.len(),
                            vout < n,
                            allocated@.len() == n,
                            pairs == allocated@[vout as int].pairs(),
                            keys_distinct(pairs),
                            alloc[vout as int] == seq_to_map(pairs),
                            burned.wf(),
                            forall|id: RelicId|
                                #[trigger] amount(burned_start, id) + amount(alloc[vout as int], id)
                                    <= u128::MAX,
                            forall|id: RelicId|
                                #[trigger] amount(burned@, id) == amount(burned_start, id) + amount(
                                    seq_to_map(pairs.take(k as int)),
                                    id,
                                ),
                        decreases len - k,
                    {
                        let (id, balance) = allocated[vout].entry(k);
                        let ghost done = seq_to_map(pairs.take(k as int));
                        let ghost b_before = burned@;
                        proof {
                            assert(pairs.take(k + 1).drop_last() =~= pairs.take(k as int));
                            assert(pairs.take(k + 1).last() == pairs[k as int]);
                            lemma_seq_to_map_index(pairs, k as int);
                            lemma_seq_to_map_contains(pairs.take(k as int), id);
                            if done.contains_key(id) {
                                let q = choose|q: int| 0 <= q < k && pairs.take(k as int)[q].0 == id;
                                assert(pairs.take(k as int)[q] == pairs[q]);
                                assert(pairs[q].0 == pairs[k as int].0);
                            }
                            assert(seq_to_map(pairs.take(k + 1)) == done.insert(id, balance));
                        }
                        burned.add(id, balance);
                        proof {
                            assert forall|x: RelicId|
                                #[trigger] amount(burned@, x) == amount(burned_start, x) + amount(
                                    seq_to_map(pairs.take(k + 1)),
                                    x,
                                ) by {
                                assert(amount(b_before, x) == amount(burned_start, x) + amount(done, x));
                            }
                        }
                        k = k + 1;
                    }
                    proof {
                        assert(pairs.take(len as int) =~= pairs);
                    }
                } else {
                    let pairs = allocated[vout].to_pairs();
                    let sorted = sort_pairs(&pairs);
                    outputs.push((vout as u32, sorted));
                }
            }
            proof {
                let c_next = credited_outputs(tx@, alloc, (vout + 1) as nat);
                let c_prev = credited_outputs(tx@, alloc, vout as nat);
                allocated@[vout as int].lemma_pairs();
                assert(alloc[vout as int].dom().len() == len);
                assert forall|j: int| 0 <= j < outputs@.len() implies {
                    let v = c_next[j];
                    &&& (#[trigger] outputs@[j]).0 == v
                    &&& seq_to_map(outputs@[j].1@) == alloc[v]
                    &&& ids_increasing(outputs@[j].1@)
                } by {
                    if j < c_prev.len() {
                        assert(c_next[j] == c_prev[j]);
                    }
                }
            }
            vout = vout + 1;
        }
        unsafe_txids.mark(txid);
        Finalized { outputs, burned: burned.to_pairs() }
    }
}

proof fn lemma_op_return_sum_mono(
    scripts: Seq<Seq<u8>>,
    allocated: Seq<Map<RelicId, u128>>,
    k: nat,
    n: nat,
)
    requires
        k < n,
    ensures
        forall|id: RelicId|
            #[trigger] op_return_sum(scripts, allocated, id, k) + (if spec_is_op_return(scripts[k as int]) {
                amount(allocated[k as int], id) as int
            } else {
                0
            }) <= op_return_sum(scripts, allocated, id, n),
    decreases n - k,
{
    assert forall|id: RelicId|
        #[trigger] op_return_sum(scripts, allocated, id, k) + (if spec_is_op_return(scripts[k as int]) {
            amount(allocated[k as int], id) as int
        } else {
            0
        }) <= op_return_sum(scripts, allocated, id, n) by {
        lemma_op_return_sum_grows(scripts, allocated, id, (k + 1) as nat, n);
    }
}

proof fn lemma_op_return_sum_grows(
    scripts: Seq<Seq<u8>>,
    allocated: Seq<Map<RelicId, u128>>,
    id: RelicId,
    k: nat,
    n: nat,
)
    requires
        k <= n,
    ensures
        op_return_sum(scripts, allocated, id, k) <= op_return_sum(scripts, allocated, id, n),
    decreases n - k,
{
    if k < n {
        lemma_op_return_sum_grows(scripts, allocated, id, k, (n - 1) as nat);
    }
}

/// All that a transaction's balances hold of a relic: unallocated, allocated to any
/// output, and burned.
pub open spec fn committed(v: BalanceView, id: RelicId) -> int {
    amount(v.total, id) + alloc_sum(v.allocated, id) + amount(v.burned, id)
}

/// No relic's amounts, all counted together, exceed a `u128`.
pub open spec fn bounded(v: BalanceView) -> bool {
    forall|id: RelicId| #[trigger] committed(v, id) <= u128::MAX
}

/// Nothing allocated of an id where no output holds it.
proof fn lemma_alloc_sum_absent(allocated: Seq<Map<RelicId, u128>>, id: RelicId)
    requires
        forall|o: int| 0 <= o < allocated.len() ==> !(#[trigger] allocated[o]).contains_key(id),
    ensures
        alloc_sum(allocated, id) == 0,
    decreases allocated.len(),
{
    if allocated.len() > 0 {
        let p = allocated.drop_last();
        assert forall|o: int| 0 <= o < p.len() implies !(#[trigger] p[o]).contains_key(id) by {
            assert(p[o] == allocated[o]);
        }
        lemma_alloc_sum_absent(p, id);
        assert(!allocated[allocated.len() - 1].contains_key(id));
    }
}

/// The sum over the first outputs is at most the sum over all.
proof fn lemma_alloc_sum_take(allocated: Seq<Map<RelicId, u128>>, id: RelicId, k: int)
    requires
        0 <= k <= allocated.len(),
    ensures
        0 <= alloc_sum(allocated.take(k), id) <= alloc_sum(allocated, id),
    decreases allocated.len() - k,
{
    lemma_alloc_sum_nonneg(allocated.take(k), id);
    if k < allocated.len() {
        assert(allocated.take(k + 1).drop_last() =~= allocated.take(k));
        lemma_alloc_sum_take(allocated, id, k + 1);
    } else {
        assert(allocated.take(k) =~= allocated);
    }
}

/// What `OP_RETURN` outputs hold of an id is part of what all outputs hold.
pub proof fn lemma_op_return_sum_le(scripts: Seq<Seq<u8>>, allocated: Seq<Map<RelicId, u128>>, id: RelicId, k: nat)
    requires
        k <= allocated.len(),
    ensures
        op_return_sum(scripts, allocated, id, k) <= alloc_sum(allocated.take(k as int), id),
    decreases k,
{
    if k > 0 {
        lemma_op_return_sum_le(scripts, allocated, id, (k - 1) as nat);
        assert(allocated.take(k as int).drop_last() =~= allocated.take(k - 1));
        assert(allocated.take(k as int).last() == allocated[k - 1]);
    }
}

impl RelicsBalance {
    /// All that the balances hold of the id, where it fits in a `u128`.
    fn committed_of(&self, id: RelicId) -> (r: Option<u128>)
        requires
            self.wf(),
        ensures
            r matches Some(c) ==> c == committed(self@, id),
            r is None ==> committed(self@, id) > u128::MAX,
    {
        let ghost alloc = self@.allocated;
        let base = self.total.get(id);
        let burned = self.burned.get(id);
        if base > u128::MAX - burned {
            proof {
                lemma_alloc_sum_nonneg(alloc, id);
            }
            return None;
        }
        let mut sum: u128 = base + burned;
        let mut o: usize = 0;
        proof {
            assert(alloc.take(0) =~= Seq::<Map<RelicId, u128>>::empty());
        }
        while o < self.allocated.len()
            invariant
                self.wf(),
                alloc == self@.allocated,
                o <= alloc.len(),
                alloc.len() == self.allocated@.len(),
                sum == amount(self@.total, id) + amount(self@.burned, id) + alloc_sum(alloc.take(o as int), id),
            decreases alloc.len() - o,
        {
            let a = self.allocated[o].get(id);
            proof {
                assert(self.allocated@[o as int].wf());
                assert(alloc[o as int] == self.allocated@[o as int]@);
                assert(alloc.take(o + 1).drop_last() =~= alloc.take(o as int));
                assert(alloc.take(o + 1).last() == alloc[o as int]);
            }
            if sum > u128::MAX - a {
                proof {
                    lemma_alloc_sum_take(alloc, id, o + 1);
                }
                return None;
            }
            sum = sum + a;
            o = o + 1;
        }
        proof {
            assert(alloc.take(o as int) =~= alloc);
        }
        Some(sum)
    }

    /// The amount of a relic burned so far.
    pub fn burned_of(&self, id: RelicId) -> (r: u128)
        requires
            self.wf(),
        ensures
            r == amount(self@.burned, id),
    {
        self.burned.get(id)
    }

    /// The amount of a relic allocated to an output.
    pub fn allocated_of(&self, output: usize, id: RelicId) -> (r: u128)
        requires
            self.wf(),
            output < self@.allocated.len(),
        ensures
            r == amount(self@.allocated[output as int], id),
    {
        proof {
            assert(self.allocated@[output as int].wf());
        }
        self.allocated[output].get(id)
    }

    /// Whether no relic's amounts, all counted together, exceed a `u128`.
    pub fn is_bounded(&self) -> (r: bool)
        requires
            self.wf(),
        ensures
            r == bounded(self@),
    {
        proof {
            self.total.lemma_pairs();
            self.burned.lemma_pairs();
        }
        let mut i: usize = 0;
        while i < self.total.len()
            invariant
                self.wf(),
                i <= self.total.pairs().len(),
                forall|j: int| 0 <= j < i ==> #[trigger] committed(self@, self.total.pairs()[j].0) <= u128::MAX,
            decreases self.total.pairs().len() - i,
        {
            let (id, _) = self.total.entry(i);
            if self.committed_of(id).is_none() {
                return false;
            }
            i = i + 1;
        }
        let mut i: usize = 0;
        while i < self.burned.len()
            invariant
                self.wf(),
                i <= self.burned.pairs().len(),
                forall|j: int| 0 <= j < i ==> #[trigger] committed(self@, self.burned.pairs()[j].0) <= u128::MAX,
            decreases self.burned.pairs().len() - i,
        {
            let (id, _) = self.burned.entry(i);
            if self.committed_of(id).is_none() {
                return false;
            }
            i = i + 1;
        }
        let mut o: usize = 0;
        while o < self.allocated.len()
            invariant
                self.wf(),
                o <= self.allocated@.len(),
                forall|p: int, j: int|
                    0 <= p < o && 0 <= j < self.allocated@[p].pairs().len() ==> #[trigger] committed(
                        self@,
                        self.allocated@[p].pairs()[j].0,
                    ) <= u128::MAX,
            decreases self.allocated@.len() - o,
        {
            let ledger = &self.allocated[o];
            let mut i: usize = 0;
            while i < ledger.len()
                invariant
                    self.wf(),
                    o < self.allocated@.len(),
                    *ledger == self.allocated@[o as int],
                    i <= ledger.pairs().len(),
                    forall|p: int, j: int|
                        0 <= p < o && 0 <= j < self.allocated@[p].pairs().len() ==> #[trigger] committed(
                            self@,
                            self.allocated@[p].pairs()[j].0,
                        ) <= u128::MAX,
                    forall|j: int| 0 <= j < i ==> #[trigger] committed(self@, ledger.pairs()[j].0) <= u128::MAX,
                decreases ledger.pairs().len() - i,
            {
                let (id, _) = ledger.entry(i);
                if self.committed_of(id).is_none() {
                    return false;
                }
                i = i + 1;
            }
            o = o + 1;
        }
        proof {
            assert forall|id: RelicId| #[trigger] committed(self@, id) <= u128::MAX by {
                if self@.total.contains_key(id) {
                    let j = choose|j: int| 0 <= j < self.total.pairs().len() && self.total.pairs()[j].0 == id;
                    assert(committed(self@, self.total.pairs()[j].0) <= u128::MAX);
                } else if self@.burned.contains_key(id) {
                    let j = choose|j: int| 0 <= j < self.burned.pairs().len() && self.burned.pairs()[j].0 == id;
                    assert(committed(self@, self.burned.pairs()[j].0) <= u128::MAX);
                } else if exists|p: int| 0 <= p < self@.allocated.len() && (#[trigger] self@.allocated[p]).contains_key(id) {
                    let p = choose|p: int| 0 <= p < self@.allocated.len() && (#[trigger] self@.allocated[p]).contains_key(id);
                    assert(self@.allocated[p] == self.allocated@[p]@);
                    self.allocated@[p].lemma_pairs();
                    let j = choose|j: int| 0 <= j < self.allocated@[p].pairs().len() && self.allocated@[p].pairs()[j].0 == id;
                    assert(committed(self@, self.allocated@[p].pairs()[j].0) <= u128::MAX);
                } else {
                    lemma_alloc_sum_absent(self@.allocated, id);
                }
            }
        }
        true
    }
}

/// Whether each relic's amounts over the inputs add up within a `u128`.
pub fn inputs_fit(inputs: &[(RelicId, u128, bool)]) -> (r: bool)
    ensures
        r == forall|id: RelicId| #[trigger] input_sum(inputs@, id, false) <= u128::MAX,
{
    let mut sums = Ledger::new();
    let mut i: usize = 0;
    proof {
        assert(inputs@.take(0) =~= Seq::<(RelicId, u128, bool)>::empty());
    }
    while i < inputs.len()
        invariant
            i <= inputs@.len(),
            sums.wf(),
            forall|id: RelicId| #[trigger] amount(sums@, id) == input_sum(inputs@.take(i as int), id, false),
        decreases inputs@.len() - i,
    {
        let (id, balance, _) = inputs[i];
        let ghost prefix = inputs@.take(i as int);
        let ghost next = inputs@.take(i + 1);
        proof {
            assert(next.drop_last() =~= prefix);
            assert(next.last() == inputs@[i as int]);
        }
        let current = sums.get(id);
        if current > u128::MAX - balance {
            proof {
                lemma_input_sum_prefix(inputs@, id, false, i + 1);
            }
            return false;
        }
        let ghost before = sums@;
        sums.set(id, current + balance);
        proof {
            assert forall|x: RelicId| #[trigger] amount(sums@, x) == input_sum(next, x, false) by {
                assert(amount(before, x) == input_sum(prefix, x, false));
            }
        }
        i = i + 1;
    }
    proof {
        assert(inputs@.take(i as int) =~= inputs@);
        assert forall|id: RelicId| #[trigger] input_sum(inputs@, id, false) <= u128::MAX by {
            assert(amount(sums@, id) == input_sum(inputs@, id, false));
        }
    }
    true
}

} // verus!
