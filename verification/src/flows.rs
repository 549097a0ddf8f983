//! What a transaction does to the relics that each address holds: the relics its
//! inputs bring from an address against those its outputs send to it.
use crate::balance::Finalized;
use crate::relic_id::RelicId;
use crate::transaction::Transaction;
use vstd::prelude::*;

verus! {

/// The bitcoin network whose address format applies.
#[derive(Clone, Copy, Debug, PartialEq, Eq, Structural)]
pub enum Chain {
    Mainnet,
    Testnet,
    Testnet4,
    Signet,
    Regtest,
}

/// The address that `bitcoin::Address::from_script` gives for a script on a chain,
/// as text, or `None` where it returns an error.
pub uninterp spec fn script_address(script: Seq<u8>, chain: Chain) -> Option<Seq<char>>;

/// The address of an output script with `bitcoin::Address::from_script`, as text.
/// Claimed: the result is the named address.
#[verifier::external_body]
fn address_of(script: &[u8], chain: Chain) -> (r: Option<String>)
    ensures
        r matches Some(a) ==> script_address(script@, chain) == Some(a@),
        r is None ==> script_address(script@, chain) is None,
{
    let network = match chain {
        Chain::Mainnet => bitcoin::Network::Bitcoin,
        Chain::Testnet => bitcoin::Network::Testnet,
        Chain::Testnet4 => bitcoin::Network::Testnet4,
        Chain::Signet => bitcoin::Network::Signet,
        Chain::Regtest => bitcoin::Network::Regtest,
    };
    bitcoin::Address::from_script(bitcoin::Script::from_bytes(script), network).ok().map(|a| a.to_string())
}

/// A flow entry matches an address and a relic.
pub open spec fn is_key(f: (String, RelicId, u128), address: Seq<char>, relic: RelicId) -> bool {
    f.0@ == address && f.1 == relic
}

/// The total that the entries for an address and a relic hold.
pub open spec fn flow_sum(s: Seq<(String, RelicId, u128)>, address: Seq<char>, relic: RelicId) -> nat
    decreases s.len(),
{
    if s.len() == 0 {
        0
    } else {
        flow_sum(s.drop_last(), address, relic) + if is_key(s.last(), address, relic) {
            s.last().2 as nat
        } else {
            0nat
        }
    }
}

/// Some entry is for the address and the relic.
pub open spec fn flow_has(s: Seq<(String, RelicId, u128)>, address: Seq<char>, relic: RelicId) -> bool {
    exists|i: int| 0 <= i < s.len() && #[trigger] is_key(s[i], address, relic)
}

/// How a transaction changed what an address holds of a relic.
#[derive(Clone, Debug, PartialEq, Eq)]
pub enum AddressFlow {
    /// The address received more than it spent.
    Received { address: String, relic: RelicId, amount: u128 },
    /// The address spent at least what it received.
    Spent { address: String, relic: RelicId, amount: u128 },
}

/// The mathematical form of an [`AddressFlow`]: the address, the relic, whether it
/// received, and the amount.
pub open spec fn flow_view(f: AddressFlow) -> (Seq<char>, RelicId, bool, u128) {
    match f {
        AddressFlow::Received { address, relic, amount } => (address@, relic, true, amount),
        AddressFlow::Spent { address, relic, amount } => (address@, relic, false, amount),
    }
}

/// The change for an address and a relic, from the total its inputs brought (and
/// whether any did) and the total its outputs received (and whether any did): received
/// where the outputs took more, else spent (nothing received counts as spending all
/// that was brought).
pub open spec fn net(spent: nat, has_spent: bool, received: nat, has_received: bool) -> (bool, u128) {
    if has_spent && has_received {
        if received > spent {
            (true, (received - spent) as u128)
        } else {
            (false, (spent - received) as u128)
        }
    } else if has_spent {
        (false, spent as u128)
    } else {
        (true, received as u128)
    }
}

/// The change for an address and a relic, from the flow entries of the inputs and the
/// outputs.
pub open spec fn net_flow(
    incoming: Seq<(String, RelicId, u128)>,
    outgoing: Seq<(String, RelicId, u128)>,
    address: Seq<char>,
    relic: RelicId,
) -> (bool, u128) {
    net(
        flow_sum(incoming, address, relic),
        flow_has(incoming, address, relic),
        flow_sum(outgoing, address, relic),
        flow_has(outgoing, address, relic),
    )
}

proof fn lemma_flow_sum_take(s: Seq<(String, RelicId, u128)>, i: int, address: Seq<char>, relic: RelicId)
    requires
        0 <= i <= s.len(),
    ensures
        flow_sum(s.take(i), address, relic) <= flow_sum(s, address, relic),
    decreases s.len() - i,
{
    if i < s.len() {
        assert(s.take(i + 1).drop_last() =~= s.take(i));
        lemma_flow_sum_take(s, i + 1, address, relic);
    } else {
        assert(s.take(i) =~= s);
    }
}

proof fn lemma_flow_has_step(s: Seq<(String, RelicId, u128)>, i: int, address: Seq<char>, relic: RelicId)
    requires
        0 <= i < s.len(),
    ensures
        flow_has(s.take(i + 1), address, relic) <==> flow_has(s.take(i), address, relic) || is_key(
            s[i],
            address,
            relic,
        ),
{
    let a = s.take(i);
    let b = s.take(i + 1);
    if flow_has(b, address, relic) {
        let j = choose|j: int| 0 <= j < b.len() && #[trigger] is_key(b[j], address, relic);
        if j < i {
            assert(is_key(a[j], address, relic));
        }
    }
    if flow_has(a, address, relic) {
        let j = choose|j: int| 0 <= j < a.len() && #[trigger] is_key(a[j], address, relic);
        assert(is_key(b[j], address, relic));
    }
    if is_key(s[i], address, relic) {
        assert(is_key(b[i], address, relic));
    }
}

/// The aggregate is right for the entries `s`: each key once, with the entries' total
/// for that key, and a key exactly where some entry has it.
pub open spec fn aggregates(agg: Seq<(String, RelicId, u128)>, s: Seq<(String, RelicId, u128)>) -> bool {
    &&& forall|j: int, k: int|
        0 <= j < k < agg.len() ==> !is_key(agg[k], agg[j].0@, agg[j].1)
    &&& forall|j: int|
        0 <= j < agg.len() ==> #[trigger] flow_has(s, agg[j].0@, agg[j].1) && agg[j].2 == flow_sum(
            s,
            agg[j].0@,
            agg[j].1,
        )
    &&& forall|address: Seq<char>, relic: RelicId|
        #[trigger] flow_has(s, address, relic) ==> exists|j: int|
            0 <= j < agg.len() && #[trigger] is_key(agg[j], address, relic)
}

/// The index of the aggregate's entry for the key.
fn find_key(agg: &Vec<(String, RelicId, u128)>, address: &String, relic: RelicId) -> (r: Option<usize>)
    ensures
        r matches Some(j) ==> j < agg@.len() && is_key(agg@[j as int], address@, relic),
        r is None ==> forall|j: int| 0 <= j < agg@.len() ==> !is_key(#[trigger] agg@[j], address@, relic),
{
    let mut j: usize = 0;
    while j < agg.len()
        invariant
            j <= agg@.len(),
            forall|k: int| 0 <= k < j ==> !is_key(#[trigger] agg@[k], address@, relic),
        decreases agg@.len() - j,
    {
        if agg[j].1 == relic && agg[j].0 == *address {
            return Some(j);
        }
        j = j + 1;
    }
    None
}

/// Adds up the entries per address and relic.
fn aggregate(s: &[(String, RelicId, u128)]) -> (r: Option<Vec<(String, RelicId, u128)>>)
    ensures
        r is None ==> exists|address: Seq<char>, relic: RelicId| #[trigger] flow_sum(s@, address, relic) > u128::MAX,
        r matches Some(agg) ==> aggregates(agg@, s@) && forall|address: Seq<char>, relic: RelicId|
            #[trigger] flow_sum(s@, address, relic) <= u128::MAX,
{
    let mut agg: Vec<(String, RelicId, u128)> = Vec::new();
    let mut i: usize = 0;
    proof {
        assert(s@.take(0) =~= Seq::<(String, RelicId, u128)>::empty());
    }
    while i < s.len()
        invariant
            i <= s@.len(),
            aggregates(agg@, s@.take(i as int)),
        decreases s@.len() - i,
    {
        let ghost pre = s@.take(i as int);
        let ghost next = s@.take(i + 1);
        let ghost old_agg = agg@;
        let address = s[i].0.clone();
        let relic = s[i].1;
        let value = s[i].2;
        proof {
            assert(next.drop_last() =~= pre);
            assert(next.last() == s@[i as int]);
            assert(is_key(s@[i as int], address@, relic));
            lemma_flow_sum_take(s@, i + 1, address@, relic);
            assert forall|a: Seq<char>, r: RelicId|
                #[trigger] flow_sum(next, a, r) == flow_sum(pre, a, r) + if is_key(s@[i as int], a, r) {
                    value as nat
                } else {
                    0nat
                } by {}
            assert forall|a: Seq<char>, r: RelicId|
                #[trigger] flow_has(next, a, r) <==> flow_has(pre, a, r) || is_key(s@[i as int], a, r) by {
                lemma_flow_has_step(s@, i as int, a, r);
            }
        }
        match find_key(&agg, &address, relic) {
            Some(j) => {
                let current = agg[j].2;
                proof {
                    assert(flow_has(pre, agg@[j as int].0@, agg@[j as int].1));
                    assert(current == flow_sum(pre, address@, relic));
                }
                if current > u128::MAX - value {
                    proof {
                        assert(flow_sum(next, address@, relic) > u128::MAX);
                        assert(flow_sum(s@, address@, relic) > u128::MAX);
                    }
                    return None;
                }
                let entry_address = agg[j].0.clone();
                agg.set(j, (entry_address, relic, current + value));
                proof {
                    assert forall|k: int| 0 <= k < agg@.len() implies #[trigger] flow_has(
                        next,
                        agg@[k].0@,
                        agg@[k].1,
                    ) && agg@[k].2 == flow_sum(next, agg@[k].0@, agg@[k].1) by {
                        if k != j {
                            assert(agg@[k] == old_agg[k]);
                            assert(flow_has(pre, old_agg[k].0@, old_agg[k].1));
                            if is_key(s@[i as int], agg@[k].0@, agg@[k].1) {
                                assert(is_key(old_agg[j as int], old_agg[k].0@, old_agg[k].1));
                                if j < k {
                                    assert(!is_key(old_agg[k], old_agg[j as int].0@, old_agg[j as int].1));
                                } else {
                                    assert(!is_key(old_agg[j as int], old_agg[k].0@, old_agg[k].1));
                                }
                            }
                        }
                    }
                    assert forall|a: Seq<char>, r: RelicId| #[trigger] flow_has(next, a, r) implies exists|
                        k: int,
                    | 0 <= k < agg@.len() && #[trigger] is_key(agg@[k], a, r) by {
                        if flow_has(pre, a, r) {
                            let k = choose|k: int| 0 <= k < old_agg.len() && #[trigger] is_key(old_agg[k], a, r);
                            if k == j {
                                assert(is_key(agg@[k], a, r));
                            } else {
                                assert(agg@[k] == old_agg[k]);
                            }
                        } else {
                            assert(is_key(agg@[j as int], a, r));
                        }
                    }
                    assert forall|x: int, y: int| 0 <= x < y < agg@.len() implies !is_key(
                        agg@[y],
                        agg@[x].0@,
                        agg@[x].1,
                    ) by {
                        assert(!is_key(old_agg[y], old_agg[x].0@, old_agg[x].1));
                    }
                }
            },
            None => {
                agg.push((address, relic, value));
                proof {
                    assert(flow_sum(pre, address@, relic) == 0) by {
                        if flow_sum(pre, address@, relic) != 0 {
                            lemma_flow_sum_zero(pre, address@, relic);
                            let k = choose|k: int| 0 <= k < old_agg.len() && #[trigger] is_key(
                                old_agg[k],
                                address@,
                                relic,
                            );
                        }
                    }
                    assert forall|k: int| 0 <= k < agg@.len() implies #[trigger] flow_has(
                        next,
                        agg@[k].0@,
                        agg@[k].1,
                    ) && agg@[k].2 == flow_sum(next, agg@[k].0@, agg@[k].1) by {
                        if k < old_agg.len() {
                            assert(agg@[k] == old_agg[k]);
                            assert(flow_has(pre, old_agg[k].0@, old_agg[k].1));
                            assert(!is_key(s@[i as int], old_agg[k].0@, old_agg[k].1));
                        } else {
                            assert(agg@[k] == (address, relic, value));
                        }
                    }
                    assert forall|a: Seq<char>, r: RelicId| #[trigger] flow_has(next, a, r) implies exists|
                        k: int,
                    | 0 <= k < agg@.len() && #[trigger] is_key(agg@[k], a, r) by {
                        if flow_has(pre, a, r) {
                            let k = choose|k: int| 0 <= k < old_agg.len() && #[trigger] is_key(old_agg[k], a, r);
                            assert(agg@[k] == old_agg[k]);
                        } else {
                            assert(is_key(agg@[old_agg.len() as int], a, r));
                        }
                    }
                    assert forall|x: int, y: int| 0 <= x < y < agg@.len() implies !is_key(
                        agg@[y],
                        agg@[x].0@,
                        agg@[x].1,
                    ) by {
                        if y < old_agg.len() {
                            assert(!is_key(old_agg[y], old_agg[x].0@, old_agg[x].1));
                        } else {
                            assert(!is_key(old_agg[x], address@, relic));
                        }
                    }
                }
            },
        }
        i = i + 1;
    }
    proof {
        assert(s@.take(i as int) =~= s@);
        assert forall|address: Seq<char>, relic: RelicId|
            #[trigger] flow_sum(s@, address, relic) <= u128::MAX by {
            if flow_sum(s@, address, relic) != 0 {
                lemma_flow_sum_zero(s@, address, relic);
                let j = choose|j: int| 0 <= j < agg@.len() && #[trigger] is_key(agg@[j], address, relic);
                assert(flow_has(s@, agg@[j].0@, agg@[j].1));
            }
        }
    }
    Some(agg)
}

/// An entry with a positive total for a key is in the entries.
proof fn lemma_flow_sum_zero(s: Seq<(String, RelicId, u128)>, address: Seq<char>, relic: RelicId)
    requires
        flow_sum(s, address, relic) != 0,
    ensures
        flow_has(s, address, relic),
    decreases s.len(),
{
    if s.len() > 0 {
        if is_key(s.last(), address, relic) {
            assert(is_key(s[s.len() - 1], address, relic));
        } else {
            lemma_flow_sum_zero(s.drop_last(), address, relic);
            let j = choose|j: int| 0 <= j < s.drop_last().len() && #[trigger] is_key(
                s.drop_last()[j],
                address,
                relic,
            );
            assert(is_key(s[j], address, relic));
        }
    }
}

/// The flow is for the address and the relic.
pub open spec fn flow_is(f: AddressFlow, address: Seq<char>, relic: RelicId) -> bool {
    flow_view(f).0 == address && flow_view(f).1 == relic
}

/// The inputs or the outputs name the address and the relic.
pub open spec fn touched(
    incoming: Seq<(String, RelicId, u128)>,
    outgoing: Seq<(String, RelicId, u128)>,
    address: Seq<char>,
    relic: RelicId,
) -> bool {
    flow_has(incoming, address, relic) || flow_has(outgoing, address, relic)
}

/// Every address and relic that the inputs or the outputs name has a flow.
pub open spec fn covers(
    incoming: Seq<(String, RelicId, u128)>,
    outgoing: Seq<(String, RelicId, u128)>,
    flows: Seq<AddressFlow>,
) -> bool {
    forall|address: Seq<char>, relic: RelicId|
        #[trigger] touched(incoming, outgoing, address, relic) ==> exists|i: int|
            0 <= i < flows.len() && #[trigger] flow_is(flows[i], address, relic)
}

/// The flow reports the change for its address and relic, one that the transaction
/// touches.
pub open spec fn valid_flow(
    incoming: Seq<(String, RelicId, u128)>,
    outgoing: Seq<(String, RelicId, u128)>,
    f: AddressFlow,
) -> bool {
    let v = flow_view(f);
    &&& flow_has(incoming, v.0, v.1) || flow_has(outgoing, v.0, v.1)
    &&& (v.2, v.3) == net_flow(incoming, outgoing, v.0, v.1)
}

/// The flow for the aggregated entry `(address, relic, total)`, given the other side's
/// aggregate entry for the same key, if any.
fn flow_for(address: &String, relic: RelicId, total: u128, other: Option<u128>, total_is_incoming: bool) -> (f:
    AddressFlow)
    ensures
        flow_view(f) == (address@, relic, if total_is_incoming {
            match other {
                Some(received) => received > total,
                None => false,
            }
        } else {
            true
        }, if total_is_incoming {
            match other {
                Some(received) => if received > total {
                    (received - total) as u128
                } else {
                    (total - received) as u128
                },
                None => total,
            }
        } else {
            total
        }),
{
    if !total_is_incoming {
        return AddressFlow::Received { address: address.clone(), relic, amount: total };
    }
    match other {
        Some(received) => if received > total {
            AddressFlow::Received { address: address.clone(), relic, amount: received - total }
        } else {
            AddressFlow::Spent { address: address.clone(), relic, amount: total - received }
        },
        None => AddressFlow::Spent { address: address.clone(), relic, amount: total },
    }
}

/// Some flow from index `first` on is for the address and the relic.
pub open spec fn covered(flows: Seq<AddressFlow>, first: int, address: Seq<char>, relic: RelicId) -> bool {
    exists|k: int|
        first <= k < flows.len() && #[trigger] flow_view(flows[k]).0 == address && flow_view(flows[k]).1
            == relic
}

/// The flow's address and relic are those of one of the first `m` aggregated outputs.
pub open spec fn from_outputs(agg_out: Seq<(String, RelicId, u128)>, m: int, f: AddressFlow) -> bool {
    exists|j: int| 0 <= j < m && #[trigger] is_key(agg_out[j], flow_view(f).0, flow_view(f).1)
}

/// The flows from index `first` on are for keys that only the outputs name, each among
/// the first `m` aggregated outputs, and no two for one key.
pub open spec fn later_flows(
    ins: Seq<(String, RelicId, u128)>,
    agg_out: Seq<(String, RelicId, u128)>,
    m: int,
    flows: Seq<AddressFlow>,
    first: int,
) -> bool {
    &&& forall|k: int|
        first <= k < flows.len() ==> !flow_has(ins, flow_view(#[trigger] flows[k]).0, flow_view(flows[k]).1)
    &&& forall|k: int| first <= k < flows.len() ==> #[trigger] from_outputs(agg_out, m, flows[k])
    &&& forall|x: int, y: int|
        first <= x < y < flows.len() ==> !(flow_view(#[trigger] flows[x]).0 == flow_view(#[trigger] flows[y]).0
            && flow_view(flows[x]).1 == flow_view(flows[y]).1)
}

proof fn lemma_later_flows_grow(
    ins: Seq<(String, RelicId, u128)>,
    agg_out: Seq<(String, RelicId, u128)>,
    m: int,
    flows: Seq<AddressFlow>,
    first: int,
)
    requires
        later_flows(ins, agg_out, m, flows, first),
        0 <= first,
    ensures
        later_flows(ins, agg_out, m + 1, flows, first),
{
    assert forall|k: int| first <= k < flows.len() implies #[trigger] from_outputs(agg_out, m + 1, flows[k]) by {
        assert(from_outputs(agg_out, m, flows[k]));
        let j = choose|j: int|
            0 <= j < m && #[trigger] is_key(agg_out[j], flow_view(flows[k]).0, flow_view(flows[k]).1);
        assert(0 <= j < m + 1 && is_key(agg_out[j], flow_view(flows[k]).0, flow_view(flows[k]).1));
    }
}

proof fn lemma_later_flows_push(
    ins: Seq<(String, RelicId, u128)>,
    agg_out: Seq<(String, RelicId, u128)>,
    m: int,
    flows: Seq<AddressFlow>,
    first: int,
    f: AddressFlow,
)
    requires
        later_flows(ins, agg_out, m, flows, first),
        0 <= first <= flows.len(),
        0 <= m < agg_out.len(),
        is_key(agg_out[m], flow_view(f).0, flow_view(f).1),
        !flow_has(ins, flow_view(f).0, flow_view(f).1),
        forall|x: int, y: int|
            0 <= x < y < agg_out.len() ==> !is_key(agg_out[y], agg_out[x].0@, agg_out[x].1),
    ensures
        later_flows(ins, agg_out, m + 1, flows.push(f), first),
{
    let t = flows.push(f);
    assert forall|k: int| first <= k < t.len() implies #[trigger] from_outputs(agg_out, m + 1, t[k]) by {
        if k == flows.len() {
            assert(0 <= m < m + 1 && is_key(agg_out[m], flow_view(t[k]).0, flow_view(t[k]).1));
        } else {
            assert(t[k] == flows[k]);
            assert(from_outputs(agg_out, m, flows[k]));
            let j = choose|j: int|
                0 <= j < m && #[trigger] is_key(agg_out[j], flow_view(flows[k]).0, flow_view(flows[k]).1);
            assert(0 <= j < m + 1 && is_key(agg_out[j], flow_view(t[k]).0, flow_view(t[k]).1));
        }
    }
    assert forall|k: int| first <= k < t.len() implies !flow_has(ins, flow_view(#[trigger] t[k]).0, flow_view(t[k]).1) by {
        if k < flows.len() {
            assert(t[k] == flows[k]);
        }
    }
    assert forall|x: int, y: int|
        first <= x < y < t.len() implies !(flow_view(#[trigger] t[x]).0 == flow_view(#[trigger] t[y]).0
            && flow_view(t[x]).1 == flow_view(t[y]).1) by {
        assert(t[x] == flows[x]);
        if y == flows.len() {
            assert(from_outputs(agg_out, m, flows[x]));
            let j = choose|j: int|
                0 <= j < m && #[trigger] is_key(agg_out[j], flow_view(flows[x]).0, flow_view(flows[x]).1);
            assert(!is_key(agg_out[m], agg_out[j].0@, agg_out[j].1));
        } else {
            assert(t[y] == flows[y]);
        }
    }
}

proof fn lemma_covered_push(flows: Seq<AddressFlow>, first: int, address: Seq<char>, relic: RelicId, f: AddressFlow)
    requires
        covered(flows, first, address, relic),
        0 <= first,
    ensures
        covered(flows.push(f), first, address, relic),
{
    let k = choose|k: int|
        first <= k < flows.len() && #[trigger] flow_view(flows[k]).0 == address && flow_view(flows[k]).1
            == relic;
    assert(flows.push(f)[k] == flows[k]);
    assert(flow_view(flows.push(f)[k]).0 == address);
}

/// The change that a transaction makes to what each address holds of each relic:
/// `incoming` lists the relics its inputs bring, with the address that held them,
/// `outgoing` the relics its outputs receive, with the receiving address. Each address
/// and relic that either side names gets one flow: received where the outputs send it
/// more than the inputs took from it, else spent.
pub fn address_flows(incoming: &[(String, RelicId, u128)], outgoing: &[(String, RelicId, u128)]) -> (r:
    Option<Vec<AddressFlow>>)
    ensures
        r is None <==> (exists|address: Seq<char>, relic: RelicId|
            #[trigger] flow_sum(incoming@, address, relic) > u128::MAX) || (exists|
            address: Seq<char>,
            relic: RelicId,
        | #[trigger] flow_sum(outgoing@, address, relic) > u128::MAX),
        r matches Some(flows) ==> (forall|i: int|
            0 <= i < flows@.len() ==> valid_flow(incoming@, outgoing@, #[trigger] flows@[i])),
        r matches Some(flows) ==> covers(incoming@, outgoing@, flows@),
        r matches Some(flows) ==> (forall|i: int, j: int|
            0 <= i < j < flows@.len() ==> !(flow_view(#[trigger] flows@[i]).0 == flow_view(
                #[trigger] flows@[j],
            ).0 && flow_view(flows@[i]).1 == flow_view(flows@[j]).1)),
{
    let agg_in = match aggregate(incoming) {
        Some(a) => a,
        None => return None,
    };
    let agg_out = match aggregate(outgoing) {
        Some(a) => a,
        None => {
            proof {
                assert forall|address: Seq<char>, relic: RelicId|
                    #[trigger] flow_sum(incoming@, address, relic) <= u128::MAX by {}
            }
            return None;
        },
    };
    let ghost ins = incoming@;
    let ghost outs = outgoing@;
    let mut flows: Vec<AddressFlow> = Vec::new();
    let mut i: usize = 0;
    while i < agg_in.len()
        invariant
            i <= agg_in@.len(),
            aggregates(agg_in@, ins),
            aggregates(agg_out@, outs),
            ins == incoming@,
            outs == outgoing@,
            flows@.len() == i,
            forall|k: int| 0 <= k < i ==> valid_flow(ins, outs, #[trigger] flows@[k]),
            forall|k: int|
                0 <= k < i ==> flow_view(#[trigger] flows@[k]).0 == agg_in@[k].0@ && flow_view(
                    flows@[k],
                ).1 == agg_in@[k].1,
        decreases agg_in@.len() - i,
    {
        let (address, relic, spent) = (&agg_in[i].0, agg_in[i].1, agg_in[i].2);
        let other = match find_key(&agg_out, address, relic) {
            Some(j) => Some(agg_out[j].2),
            None => None,
        };
        let f = flow_for(address, relic, spent, other, true);
        proof {
            assert(flow_has(ins, address@, relic));
            match other {
                Some(received) => {
                    let j = choose|j: int| 0 <= j < agg_out@.len() && is_key(agg_out@[j], address@, relic) && agg_out@[j].2 == received;
                    assert(flow_has(outs, agg_out@[j].0@, agg_out@[j].1));
                },
                None => {
                    if flow_has(outs, address@, relic) {
                        let j = choose|j: int| 0 <= j < agg_out@.len() && #[trigger] is_key(agg_out@[j], address@, relic);
                    }
                },
            }
        }
        flows.push(f);
        i = i + 1;
    }
    let ghost first = flows@.len();
    let mut m: usize = 0;
    while m < agg_out.len()
        invariant
            m <= agg_out@.len(),
            first == agg_in@.len(),
            first <= flows@.len(),
            aggregates(agg_in@, ins),
            aggregates(agg_out@, outs),
            ins == incoming@,
            outs == outgoing@,
            forall|k: int| 0 <= k < flows@.len() ==> valid_flow(ins, outs, #[trigger] flows@[k]),
            forall|k: int|
                0 <= k < first ==> flow_view(#[trigger] flows@[k]).0 == agg_in@[k].0@ && flow_view(
                    flows@[k],
                ).1 == agg_in@[k].1,
            later_flows(ins, agg_out@, m as int, flows@, first as int),
            forall|j: int|
                0 <= j < m ==> flow_has(ins, (#[trigger] agg_out@[j]).0@, agg_out@[j].1) || covered(
                    flows@,
                    first as int,
                    agg_out@[j].0@,
                    agg_out@[j].1,
                ),
        decreases agg_out@.len() - m,
    {
        let (address, relic, received) = (&agg_out[m].0, agg_out[m].1, agg_out[m].2);
        let ghost before = flows@;
        match find_key(&agg_in, address, relic) {
            Some(j) => {
                proof {
                    assert(flow_has(ins, agg_in@[j as int].0@, agg_in@[j as int].1));
                    lemma_later_flows_grow(ins, agg_out@, m as int, flows@, first as int);
                }
            },
            None => {
                let f = flow_for(address, relic, received, None, false);
                proof {
                    assert(flow_has(outs, address@, relic));
                    if flow_has(ins, address@, relic) {
                        let j = choose|j: int| 0 <= j < agg_in@.len() && #[trigger] is_key(agg_in@[j], address@, relic);
                    }
                }
                flows.push(f);
                proof {
                    lemma_later_flows_push(ins, agg_out@, m as int, before, first as int, f);
                    assert(covered(flows@, first as int, address@, relic)) by {
                        assert(flow_view(flows@[flows@.len() - 1]).0 == address@);
                    }
                    assert forall|j: int| 0 <= j < m implies flow_has(ins, (#[trigger] agg_out@[j]).0@, agg_out@[j].1) || covered(
                        flows@,
                        first as int,
                        agg_out@[j].0@,
                        agg_out@[j].1,
                    ) by {
                        if !flow_has(ins, agg_out@[j].0@, agg_out@[j].1) {
                            lemma_covered_push(before, first as int, agg_out@[j].0@, agg_out@[j].1, f);
                        }
                    }
                }
            },
        }
        m = m + 1;
    }
    proof {
        assert forall|address: Seq<char>, relic: RelicId|
            #[trigger] touched(incoming@, outgoing@, address, relic) implies exists|i: int|
                0 <= i < flows@.len() && #[trigger] flow_is(flows@[i], address, relic) by {
            if flow_has(ins, address, relic) {
                let j = choose|j: int| 0 <= j < agg_in@.len() && #[trigger] is_key(agg_in@[j], address, relic);
                assert(flow_is(flows@[j], address, relic));
            } else {
                let j = choose|j: int| 0 <= j < agg_out@.len() && #[trigger] is_key(agg_out@[j], address, relic);
                assert(!flow_has(ins, agg_out@[j].0@, agg_out@[j].1));
                assert(covered(flows@, first as int, agg_out@[j].0@, agg_out@[j].1));
                let k = choose|k: int| first <= k < flows@.len() && #[trigger] flow_view(flows@[k]).0 == agg_out@[j].0@
                    && flow_view(flows@[k]).1 == agg_out@[j].1;
                assert(flow_is(flows@[k], address, relic));
            }
        }
        assert(covers(incoming@, outgoing@, flows@));
        assert forall|x: int, y: int|
            0 <= x < y < flows@.len() implies !(flow_view(#[trigger] flows@[x]).0 == flow_view(
                #[trigger] flows@[y],
            ).0 && flow_view(flows@[x]).1 == flow_view(flows@[y]).1) by {
            if y < first {
                assert(!is_key(agg_in@[y], agg_in@[x].0@, agg_in@[x].1));
            } else if x < first {
                assert(flow_has(ins, agg_in@[x].0@, agg_in@[x].1));
                assert(!flow_has(ins, flow_view(flows@[y]).0, flow_view(flows@[y]).1));
            } else {
                assert(!(flow_view(flows@[x]).0 == flow_view(flows@[y]).0 && flow_view(flows@[x]).1
                    == flow_view(flows@[y]).1));
            }
        }
    }
    Some(flows)
}

/// The total that a list of balances holds of a relic.
pub open spec fn bsum(bals: Seq<(RelicId, u128)>, relic: RelicId) -> nat
    decreases bals.len(),
{
    if bals.len() == 0 {
        0
    } else {
        bsum(bals.drop_last(), relic) + if bals.last().0 == relic {
            bals.last().1 as nat
        } else {
            0nat
        }
    }
}

/// A list of balances names the relic.
pub open spec fn bhas(bals: Seq<(RelicId, u128)>, relic: RelicId) -> bool {
    exists|k: int| 0 <= k < bals.len() && (#[trigger] bals[k]).0 == relic
}

/// Balances grouped by the address that holds them (`None` where there is none).
pub open spec fn groups_view<T>(addresses: Seq<Option<String>>, items: Seq<(T, Vec<(RelicId, u128)>)>) -> Seq<
    (Option<Seq<char>>, Seq<(RelicId, u128)>),
> {
    Seq::new(
        items.len(),
        |g: int|
            (
                match addresses[g] {
                    Some(a) => Some(a@),
                    None => None,
                },
                items[g].1@,
            ),
    )
}

/// The total that the groups of an address hold of a relic.
pub open spec fn gsum(groups: Seq<(Option<Seq<char>>, Seq<(RelicId, u128)>)>, address: Seq<char>, relic: RelicId) -> nat
    decreases groups.len(),
{
    if groups.len() == 0 {
        0
    } else {
        gsum(groups.drop_last(), address, relic) + if groups.last().0 == Some(address) {
            bsum(groups.last().1, relic)
        } else {
            0nat
        }
    }
}

/// Some group of the address names the relic.
pub open spec fn ghas(groups: Seq<(Option<Seq<char>>, Seq<(RelicId, u128)>)>, address: Seq<char>, relic: RelicId) -> bool {
    exists|g: int| 0 <= g < groups.len() && (#[trigger] groups[g]).0 == Some(address) && bhas(groups[g].1, relic)
}

proof fn lemma_flow_push(r: Seq<(String, RelicId, u128)>, x: (String, RelicId, u128), address: Seq<char>, relic: RelicId)
    ensures
        flow_sum(r.push(x), address, relic) == flow_sum(r, address, relic) + if is_key(x, address, relic) {
            x.2 as nat
        } else {
            0nat
        },
        flow_has(r.push(x), address, relic) <==> flow_has(r, address, relic) || is_key(x, address, relic),
{
    let t = r.push(x);
    assert(t.drop_last() =~= r);
    if flow_has(t, address, relic) {
        let j = choose|j: int| 0 <= j < t.len() && #[trigger] is_key(t[j], address, relic);
        if j < r.len() {
            assert(is_key(r[j], address, relic));
        }
    }
    if flow_has(r, address, relic) {
        let j = choose|j: int| 0 <= j < r.len() && #[trigger] is_key(r[j], address, relic);
        assert(is_key(t[j], address, relic));
    }
    if is_key(x, address, relic) {
        assert(is_key(t[r.len() as int], address, relic));
    }
}

proof fn lemma_bals_step(bals: Seq<(RelicId, u128)>, k: int, relic: RelicId)
    requires
        0 <= k < bals.len(),
    ensures
        bsum(bals.take(k + 1), relic) == bsum(bals.take(k), relic) + if bals[k].0 == relic {
            bals[k].1 as nat
        } else {
            0nat
        },
        bhas(bals.take(k + 1), relic) <==> bhas(bals.take(k), relic) || bals[k].0 == relic,
{
    let a = bals.take(k);
    let b = bals.take(k + 1);
    assert(b.drop_last() =~= a);
    if bhas(b, relic) {
        let j = choose|j: int| 0 <= j < b.len() && (#[trigger] b[j]).0 == relic;
        if j < k {
            assert(a[j].0 == relic);
        }
    }
    if bhas(a, relic) {
        let j = choose|j: int| 0 <= j < a.len() && (#[trigger] a[j]).0 == relic;
        assert(b[j].0 == relic);
    }
    if bals[k].0 == relic {
        assert(b[k].0 == relic);
    }
}

proof fn lemma_groups_step(
    groups: Seq<(Option<Seq<char>>, Seq<(RelicId, u128)>)>,
    g: int,
    address: Seq<char>,
    relic: RelicId,
)
    requires
        0 <= g < groups.len(),
    ensures
        gsum(groups.take(g + 1), address, relic) == gsum(groups.take(g), address, relic) + if groups[g].0
            == Some(address) {
            bsum(groups[g].1, relic)
        } else {
            0nat
        },
        ghas(groups.take(g + 1), address, relic) <==> ghas(groups.take(g), address, relic) || (groups[g].0
            == Some(address) && bhas(groups[g].1, relic)),
{
    let a = groups.take(g);
    let b = groups.take(g + 1);
    assert(b.drop_last() =~= a);
    if ghas(b, address, relic) {
        let j = choose|j: int| 0 <= j < b.len() && (#[trigger] b[j]).0 == Some(address) && bhas(b[j].1, relic);
        if j < g {
            assert(a[j] == b[j]);
        }
    }
    if ghas(a, address, relic) {
        let j = choose|j: int| 0 <= j < a.len() && (#[trigger] a[j]).0 == Some(address) && bhas(a[j].1, relic);
        assert(b[j] == a[j]);
    }
    if groups[g].0 == Some(address) && bhas(groups[g].1, relic) {
        assert(b[g] == groups[g]);
    }
}

/// Pairs each balance with the address of its group, leaving out groups without one.
fn tag<T>(addresses: &Vec<Option<String>>, items: &[(T, Vec<(RelicId, u128)>)]) -> (r: Vec<(String, RelicId, u128)>)
    requires
        addresses@.len() == items@.len(),
    ensures
        forall|address: Seq<char>, relic: RelicId|
            #[trigger] flow_sum(r@, address, relic) == gsum(groups_view(addresses@, items@), address, relic),
        forall|address: Seq<char>, relic: RelicId|
            #[trigger] flow_has(r@, address, relic) <==> ghas(groups_view(addresses@, items@), address, relic),
{
    let ghost groups = groups_view(addresses@, items@);
    let mut r: Vec<(String, RelicId, u128)> = Vec::new();
    let mut g: usize = 0;
    proof {
        assert(groups.take(0) =~= Seq::<(Option<Seq<char>>, Seq<(RelicId, u128)>)>::empty());
    }
    while g < items.len()
        invariant
            g <= items@.len(),
            addresses@.len() == items@.len(),
            groups == groups_view(addresses@, items@),
            forall|address: Seq<char>, relic: RelicId|
                #[trigger] flow_sum(r@, address, relic) == gsum(groups.take(g as int), address, relic),
            forall|address: Seq<char>, relic: RelicId|
                #[trigger] flow_has(r@, address, relic) <==> ghas(groups.take(g as int), address, relic),
        decreases items@.len() - g,
    {
        let ghost r0 = r@;
        match &addresses[g] {
            Some(address) => {
                let bals = &items[g].1;
                let mut k: usize = 0;
                proof {
                    assert(bals@.take(0) =~= Seq::<(RelicId, u128)>::empty());
                }
                while k < bals.len()
                    invariant
                        k <= bals@.len(),
                        g < items@.len(),
                        addresses@.len() == items@.len(),
                        groups == groups_view(addresses@, items@),
                        bals@ == items@[g as int].1@,
                        addresses@[g as int] == Some(*address),
                        forall|a: Seq<char>, rel: RelicId|
                            #[trigger] flow_sum(r@, a, rel) == flow_sum(r0, a, rel) + if a == address@ {
                                bsum(bals@.take(k as int), rel)
                            } else {
                                0nat
                            },
                        forall|a: Seq<char>, rel: RelicId|
                            #[trigger] flow_has(r@, a, rel) <==> flow_has(r0, a, rel) || (a == address@
                                && bhas(bals@.take(k as int), rel)),
                    decreases bals@.len() - k,
                {
                    let (id, v) = bals[k];
                    let x = (address.clone(), id, v);
                    let ghost r1 = r@;
                    r.push(x);
                    proof {
                        assert forall|a: Seq<char>, rel: RelicId|
                            #[trigger] flow_sum(r@, a, rel) == flow_sum(r0, a, rel) + if a == address@ {
                                bsum(bals@.take(k + 1), rel)
                            } else {
                                0nat
                            } by {
                            lemma_flow_push(r1, x, a, rel);
                            lemma_bals_step(bals@, k as int, rel);
                        }
                        assert forall|a: Seq<char>, rel: RelicId|
                            #[trigger] flow_has(r@, a, rel) <==> flow_has(r0, a, rel) || (a == address@
                                && bhas(bals@.take(k + 1), rel)) by {
                            lemma_flow_push(r1, x, a, rel);
                            lemma_bals_step(bals@, k as int, rel);
                        }
                    }
                    k = k + 1;
                }
                proof {
                    assert(bals@.take(k as int) =~= bals@);
                    assert(groups[g as int] == (Some(address@), bals@));
                    assert forall|a: Seq<char>, rel: RelicId|
                        #[trigger] flow_sum(r@, a, rel) == gsum(groups.take(g + 1), a, rel) by {
                        lemma_groups_step(groups, g as int, a, rel);
                    }
                    assert forall|a: Seq<char>, rel: RelicId|
                        #[trigger] flow_has(r@, a, rel) <==> ghas(groups.take(g + 1), a, rel) by {
                        lemma_groups_step(groups, g as int, a, rel);
                    }
                }
            },
            None => {
                proof {
                    assert(groups[g as int].0 is None);
                    assert forall|a: Seq<char>, rel: RelicId|
                        #[trigger] flow_sum(r@, a, rel) == gsum(groups.take(g + 1), a, rel) by {
                        lemma_groups_step(groups, g as int, a, rel);
                    }
                    assert forall|a: Seq<char>, rel: RelicId|
                        #[trigger] flow_has(r@, a, rel) <==> ghas(groups.take(g + 1), a, rel) by {
                        lemma_groups_step(groups, g as int, a, rel);
                    }
                }
            },
        }
        g = g + 1;
    }
    proof {
        assert(groups.take(g as int) =~= groups);
    }
    r
}

/// The flow reports the change for its address and relic, for balances grouped by
/// address on the inputs' side and on the outputs' side.
pub open spec fn group_flow_valid(
    ins: Seq<(Option<Seq<char>>, Seq<(RelicId, u128)>)>,
    outs: Seq<(Option<Seq<char>>, Seq<(RelicId, u128)>)>,
    f: AddressFlow,
) -> bool {
    let v = flow_view(f);
    &&& ghas(ins, v.0, v.1) || ghas(outs, v.0, v.1)
    &&& (v.2, v.3) == net(gsum(ins, v.0, v.1), ghas(ins, v.0, v.1), gsum(outs, v.0, v.1), ghas(outs, v.0, v.1))
}

/// Every address and relic that the grouped balances name has a flow.
pub open spec fn group_covers(
    ins: Seq<(Option<Seq<char>>, Seq<(RelicId, u128)>)>,
    outs: Seq<(Option<Seq<char>>, Seq<(RelicId, u128)>)>,
    flows: Seq<AddressFlow>,
) -> bool {
    forall|address: Seq<char>, relic: RelicId|
        #[trigger] group_touched(ins, outs, address, relic) ==> exists|i: int|
            0 <= i < flows.len() && #[trigger] flow_is(flows[i], address, relic)
}

/// The grouped balances of the inputs or of the outputs name the address and the relic.
pub open spec fn group_touched(
    ins: Seq<(Option<Seq<char>>, Seq<(RelicId, u128)>)>,
    outs: Seq<(Option<Seq<char>>, Seq<(RelicId, u128)>)>,
    address: Seq<char>,
    relic: RelicId,
) -> bool {
    ghas(ins, address, relic) || ghas(outs, address, relic)
}

/// No two flows are for the same address and relic.
pub open spec fn flows_distinct(flows: Seq<AddressFlow>) -> bool {
    forall|i: int, j: int|
        0 <= i < j < flows.len() ==> !(flow_view(#[trigger] flows[i]).0 == flow_view(#[trigger] flows[j]).0
            && flow_view(flows[i]).1 == flow_view(flows[j]).1)
}

/// The balances of the spent outputs, grouped by the address of each spent output's
/// script (none where the script is unknown or has no address).
pub open spec fn sender_groups(senders: Seq<(Option<Vec<u8>>, Vec<(RelicId, u128)>)>, chain: Chain) -> Seq<
    (Option<Seq<char>>, Seq<(RelicId, u128)>),
> {
    Seq::new(
        senders.len(),
        |j: int|
            (
                match senders[j].0 {
                    Some(script) => script_address(script@, chain),
                    None => None,
                },
                senders[j].1@,
            ),
    )
}

/// The balances of the credited outputs, grouped by the address of each output's script.
pub open spec fn receiver_groups(
    scripts: Seq<Seq<u8>>,
    outputs: Seq<(u32, Vec<(RelicId, u128)>)>,
    chain: Chain,
) -> Seq<(Option<Seq<char>>, Seq<(RelicId, u128)>)> {
    Seq::new(
        outputs.len(),
        |j: int| (script_address(scripts[outputs[j].0 as int], chain), outputs[j].1@),
    )
}

/// What a transaction does to the relics that each address holds: `senders` gives,
/// for each input that spends relics, the script of the output it spends (where the
/// index knows it) and those relics; the relics go to the outputs that `finalized`
/// credits. Each address and relic gets one flow; `None` where an address's total of
/// a relic on either side overflows.
pub fn transaction_flows(
    senders: &[(Option<Vec<u8>>, Vec<(RelicId, u128)>)],
    tx: &Transaction,
    finalized: &Finalized,
    chain: Chain,
) -> (r: Option<Vec<AddressFlow>>)
    requires
        forall|j: int| 0 <= j < finalized.outputs@.len() ==> (#[trigger] finalized.outputs@[j]).0 < tx.output@.len(),
    ensures
        r is None <==> (exists|address: Seq<char>, relic: RelicId|
            #[trigger] gsum(sender_groups(senders@, chain), address, relic) > u128::MAX) || (exists|
            address: Seq<char>,
            relic: RelicId,
        | #[trigger] gsum(receiver_groups(tx@, finalized.outputs@, chain), address, relic) > u128::MAX),
        r matches Some(flows) ==> (forall|i: int|
            0 <= i < flows@.len() ==> group_flow_valid(
                sender_groups(senders@, chain),
                receiver_groups(tx@, finalized.outputs@, chain),
                #[trigger] flows@[i],
            )),
        r matches Some(flows) ==> group_covers(
            sender_groups(senders@, chain),
            receiver_groups(tx@, finalized.outputs@, chain),
            flows@,
        ),
        r matches Some(flows) ==> flows_distinct(flows@),
{
    let ghost ins = sender_groups(senders@, chain);
    let ghost outs = receiver_groups(tx@, finalized.outputs@, chain);
    let mut sender_addresses: Vec<Option<String>> = Vec::new();
    let mut j: usize = 0;
    while j < senders.len()
        invariant
            j <= senders@.len(),
            sender_addresses@.len() == j,
            forall|k: int|
                0 <= k < j ==> (match #[trigger] sender_addresses@[k] {
                    Some(a) => Some(a@),
                    None => None,
                }) == ins[k].0,
            ins == sender_groups(senders@, chain),
        decreases senders@.len() - j,
    {
        let address = match &senders[j].0 {
            Some(script) => address_of(script.as_slice(), chain),
            None => None,
        };
        sender_addresses.push(address);
        j = j + 1;
    }
    let mut receiver_addresses: Vec<Option<String>> = Vec::new();
    let mut j: usize = 0;
    while j < finalized.outputs.len()
        invariant
            j <= finalized.outputs@.len(),
            receiver_addresses@.len() == j,
            forall|k: int| 0 <= k < finalized.outputs@.len() ==> (#[trigger] finalized.outputs@[k]).0 < tx.output@.len(),
            forall|k: int|
                0 <= k < j ==> (match #[trigger] receiver_addresses@[k] {
                    Some(a) => Some(a@),
                    None => None,
                }) == outs[k].0,
            outs == receiver_groups(tx@, finalized.outputs@, chain),
        decreases finalized.outputs@.len() - j,
    {
        let vout = finalized.outputs[j].0 as usize;
        proof {
            assert(tx@[vout as int] == tx.output@[vout as int].script_pubkey@);
        }
        let address = address_of(tx.output[vout].script_pubkey.as_slice(), chain);
        receiver_addresses.push(address);
        j = j + 1;
    }
    proof {
        assert(groups_view(sender_addresses@, senders@) =~= ins);
        assert(groups_view(receiver_addresses@, finalized.outputs@) =~= outs);
    }
    let incoming = tag(&sender_addresses, senders);
    let outgoing = tag(&receiver_addresses, finalized.outputs.as_slice());
    let r = address_flows(incoming.as_slice(), outgoing.as_slice());
    proof {
        if r is Some {
            let flows = r->Some_0;
            assert forall|i: int| 0 <= i < flows@.len() implies group_flow_valid(ins, outs, #[trigger] flows@[i]) by {
                assert(valid_flow(incoming@, outgoing@, flows@[i]));
            }
            assert(covers(incoming@, outgoing@, flows@));
            assert forall|address: Seq<char>, relic: RelicId|
                #[trigger] group_touched(ins, outs, address, relic) implies exists|i: int|
                    0 <= i < flows@.len() && #[trigger] flow_is(flows@[i], address, relic) by {
                assert(touched(incoming@, outgoing@, address, relic));
            }
            assert(group_covers(ins, outs, flows@));
        } else {
            if exists|address: Seq<char>, relic: RelicId| #[trigger] flow_sum(incoming@, address, relic) > u128::MAX {
                let (a, rel) = choose|address: Seq<char>, relic: RelicId| #[trigger] flow_sum(incoming@, address, relic) > u128::MAX;
                assert(gsum(ins, a, rel) > u128::MAX);
            } else {
                let (a, rel) = choose|address: Seq<char>, relic: RelicId| #[trigger] flow_sum(outgoing@, address, relic) > u128::MAX;
                assert(gsum(outs, a, rel) > u128::MAX);
            }
        }
        if (exists|address: Seq<char>, relic: RelicId| #[trigger] gsum(ins, address, relic) > u128::MAX) {
            let (a, rel) = choose|address: Seq<char>, relic: RelicId| #[trigger] gsum(ins, address, relic) > u128::MAX;
            assert(flow_sum(incoming@, a, rel) > u128::MAX);
        }
        if (exists|address: Seq<char>, relic: RelicId| #[trigger] gsum(outs, address, relic) > u128::MAX) {
            let (a, rel) = choose|address: Seq<char>, relic: RelicId| #[trigger] gsum(outs, address, relic) > u128::MAX;
            assert(flow_sum(outgoing@, a, rel) > u128::MAX);
        }
    }
    r
}

} // verus!
