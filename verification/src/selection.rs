//! Choosing the wallet outputs that a transaction spends to bring the relics it needs:
//! the outputs are taken in order, each one that still helps towards a requirement
//! that is not yet met, with all the relics it holds.
use crate::spaced_relic::SpacedRelic;
use crate::txid::Txid;
use vstd::prelude::*;

verus! {

/// A transaction output: the transaction's id and the output's index.
#[derive(Clone, Copy, Debug, PartialEq, Eq, Structural, PartialOrd, Ord, Hash)]
pub struct OutPoint {
    pub txid: Txid,
    pub vout: u32,
}

/// The outputs with the relics that each holds, as sequences.
pub open spec fn holdings(s: Seq<(OutPoint, Vec<(SpacedRelic, u128)>)>) -> Seq<(OutPoint, Seq<(SpacedRelic, u128)>)> {
    s.map_values(|e: (OutPoint, Vec<(SpacedRelic, u128)>)| (e.0, e.1@))
}

/// How much of relic `x` a list of balances holds, all its entries counted.
pub open spec fn relic_amount(bal: Seq<(SpacedRelic, u128)>, x: SpacedRelic) -> int
    decreases bal.len(),
{
    if bal.len() == 0 {
        0
    } else {
        relic_amount(bal.drop_last(), x) + if bal.last().0 == x {
            bal.last().1 as int
        } else {
            0
        }
    }
}

/// The balances name relic `x`.
pub open spec fn names(bal: Seq<(SpacedRelic, u128)>, x: SpacedRelic) -> bool {
    exists|j: int| 0 <= j < bal.len() && (#[trigger] bal[j]).0 == x
}

/// The balances hold some of relic `x`.
pub open spec fn holds_some(bal: Seq<(SpacedRelic, u128)>, x: SpacedRelic) -> bool {
    exists|j: int| 0 <= j < bal.len() && (#[trigger] bal[j]).0 == x && bal[j].1 > 0
}

/// No relic is named twice.
pub open spec fn relics_distinct(bal: Seq<(SpacedRelic, u128)>) -> bool {
    forall|i: int, j: int| 0 <= i < j < bal.len() ==> (#[trigger] bal[i]).0 != (#[trigger] bal[j]).0
}

/// Whether an output with these balances is taken, given what the outputs taken
/// before it bring of each relic: some requirement is not met yet, and the output
/// holds some of that relic.
pub open spec fn wanted(
    bal: Seq<(SpacedRelic, u128)>,
    req: Seq<(SpacedRelic, u128)>,
    alloc: spec_fn(SpacedRelic) -> int,
) -> bool {
    exists|k: int| 0 <= k < req.len() && alloc(req[k].0) < req[k].1 && #[trigger] holds_some(bal, req[k].0)
}

/// What the outputs taken among the first `i` bring of each relic.
pub open spec fn allocation(
    avail: Seq<(OutPoint, Seq<(SpacedRelic, u128)>)>,
    req: Seq<(SpacedRelic, u128)>,
    i: int,
) -> spec_fn(SpacedRelic) -> int
    decreases i,
{
    if i <= 0 {
        |x: SpacedRelic| 0int
    } else {
        let prev = allocation(avail, req, i - 1);
        if wanted(avail[i - 1].1, req, prev) {
            |x: SpacedRelic| prev(x) + relic_amount(avail[i - 1].1, x)
        } else {
            prev
        }
    }
}

/// What the outputs taken among the first `i` bring of relic `x`.
pub open spec fn allocated_upto(
    avail: Seq<(OutPoint, Seq<(SpacedRelic, u128)>)>,
    req: Seq<(SpacedRelic, u128)>,
    i: int,
    x: SpacedRelic,
) -> int {
    allocation(avail, req, i)(x)
}

/// Output `j` is taken.
pub open spec fn taken(avail: Seq<(OutPoint, Seq<(SpacedRelic, u128)>)>, req: Seq<(SpacedRelic, u128)>, j: int) -> bool {
    wanted(avail[j].1, req, allocation(avail, req, j))
}

/// The outputs taken among the first `i`, in order.
pub open spec fn selected(
    avail: Seq<(OutPoint, Seq<(SpacedRelic, u128)>)>,
    req: Seq<(SpacedRelic, u128)>,
    i: int,
) -> Seq<OutPoint>
    decreases i,
{
    if i <= 0 {
        Seq::empty()
    } else if taken(avail, req, i - 1) {
        selected(avail, req, i - 1).push(avail[i - 1].0)
    } else {
        selected(avail, req, i - 1)
    }
}

/// Some output taken among the first `i` names relic `x`.
pub open spec fn touched(
    avail: Seq<(OutPoint, Seq<(SpacedRelic, u128)>)>,
    req: Seq<(SpacedRelic, u128)>,
    i: int,
    x: SpacedRelic,
) -> bool {
    exists|j: int| 0 <= j < i && #[trigger] taken(avail, req, j) && names(avail[j].1, x)
}

/// What all of the first `i` outputs hold of relic `x`.
pub open spec fn total_upto(avail: Seq<(OutPoint, Seq<(SpacedRelic, u128)>)>, i: int, x: SpacedRelic) -> int
    decreases i,
{
    if i <= 0 {
        0
    } else {
        total_upto(avail, i - 1, x) + relic_amount(avail[i - 1].1, x)
    }
}

/// The relics that the taken outputs bring, each named once: those that some taken
/// output names, with what all of them bring.
pub open spec fn is_allocation(
    alloc: Seq<(SpacedRelic, u128)>,
    avail: Seq<(OutPoint, Seq<(SpacedRelic, u128)>)>,
    req: Seq<(SpacedRelic, u128)>,
    i: int,
) -> bool {
    &&& relics_distinct(alloc)
    &&& forall|x: SpacedRelic| #[trigger] names(alloc, x) <==> touched(avail, req, i, x)
    &&& forall|x: SpacedRelic| #[trigger] relic_amount(alloc, x) == allocated_upto(avail, req, i, x)
}

proof fn lemma_relic_amount_nonneg(bal: Seq<(SpacedRelic, u128)>, x: SpacedRelic)
    ensures
        relic_amount(bal, x) >= 0,
    decreases bal.len(),
{
    if bal.len() > 0 {
        lemma_relic_amount_nonneg(bal.drop_last(), x);
    }
}

/// Balances that do not name a relic hold none of it.
proof fn lemma_relic_amount_unnamed(bal: Seq<(SpacedRelic, u128)>, x: SpacedRelic)
    requires
        !names(bal, x),
    ensures
        relic_amount(bal, x) == 0,
    decreases bal.len(),
{
    if bal.len() > 0 {
        let p = bal.drop_last();
        assert(!names(p, x)) by {
            if names(p, x) {
                let j = choose|j: int| 0 <= j < p.len() && (#[trigger] p[j]).0 == x;
                assert(bal[j] == p[j]);
            }
        }
        lemma_relic_amount_unnamed(p, x);
        assert(bal[bal.len() - 1] == bal.last());
    }
}

/// Balances that hold none of a relic count none of it.
proof fn lemma_relic_amount_none(bal: Seq<(SpacedRelic, u128)>, x: SpacedRelic)
    requires
        !holds_some(bal, x),
    ensures
        relic_amount(bal, x) == 0,
    decreases bal.len(),
{
    if bal.len() > 0 {
        let p = bal.drop_last();
        assert(!holds_some(p, x)) by {
            if holds_some(p, x) {
                let j = choose|j: int| 0 <= j < p.len() && (#[trigger] p[j]).0 == x && p[j].1 > 0;
                assert(bal[j] == p[j]);
            }
        }
        lemma_relic_amount_none(p, x);
        assert(bal[bal.len() - 1] == bal.last());
    }
}

/// The amount counted over the first `t + 1` entries.
proof fn lemma_relic_amount_take(bal: Seq<(SpacedRelic, u128)>, t: int, x: SpacedRelic)
    requires
        0 <= t < bal.len(),
    ensures
        relic_amount(bal.take(t + 1), x) == relic_amount(bal.take(t), x) + if bal[t].0 == x {
            bal[t].1 as int
        } else {
            0
        },
{
    assert(bal.take(t + 1).drop_last() =~= bal.take(t));
    assert(bal.take(t + 1).last() == bal[t]);
}

/// Changing one entry's amount changes only that relic's count.
proof fn lemma_relic_amount_update(bal: Seq<(SpacedRelic, u128)>, i: int, v: u128, x: SpacedRelic)
    requires
        0 <= i < bal.len(),
    ensures
        relic_amount(bal.update(i, (bal[i].0, v)), x) == relic_amount(bal, x) + if bal[i].0 == x {
            v - bal[i].1
        } else {
            0
        },
    decreases bal.len(),
{
    let u = bal.update(i, (bal[i].0, v));
    if i == bal.len() - 1 {
        assert(u.drop_last() =~= bal.drop_last());
    } else {
        assert(u.drop_last() =~= bal.drop_last().update(i, (bal[i].0, v)));
        lemma_relic_amount_update(bal.drop_last(), i, v, x);
    }
}

/// With each relic named once, the count of a named relic is its entry's amount.
proof fn lemma_relic_amount_at(bal: Seq<(SpacedRelic, u128)>, i: int)
    requires
        relics_distinct(bal),
        0 <= i < bal.len(),
    ensures
        relic_amount(bal, bal[i].0) == bal[i].1,
    decreases bal.len(),
{
    let p = bal.drop_last();
    if i == bal.len() - 1 {
        assert(!names(p, bal[i].0)) by {
            if names(p, bal[i].0) {
                let j = choose|j: int| 0 <= j < p.len() && (#[trigger] p[j]).0 == bal[i].0;
                assert(bal[j] == p[j]);
            }
        }
        lemma_relic_amount_unnamed(p, bal[i].0);
    } else {
        assert(p[i] == bal[i]);
        assert(relics_distinct(p)) by {
            assert forall|a: int, b: int| 0 <= a < b < p.len() implies (#[trigger] p[a]).0 != (#[trigger] p[b]).0 by {
                assert(p[a] == bal[a] && p[b] == bal[b]);
            }
        }
        lemma_relic_amount_at(p, i);
        assert(bal[bal.len() - 1].0 != bal[i].0);
    }
}

/// One more output: what it brings where it is taken.
pub proof fn lemma_allocated_step(
    avail: Seq<(OutPoint, Seq<(SpacedRelic, u128)>)>,
    req: Seq<(SpacedRelic, u128)>,
    i: int,
    x: SpacedRelic,
)
    requires
        i > 0,
    ensures
        allocated_upto(avail, req, i, x) == allocated_upto(avail, req, i - 1, x) + if taken(avail, req, i - 1) {
            relic_amount(avail[i - 1].1, x)
        } else {
            0
        },
{
}

/// What is taken never exceeds what is there.
proof fn lemma_allocated_le_total(
    avail: Seq<(OutPoint, Seq<(SpacedRelic, u128)>)>,
    req: Seq<(SpacedRelic, u128)>,
    i: int,
    x: SpacedRelic,
)
    ensures
        0 <= allocated_upto(avail, req, i, x) <= total_upto(avail, i, x),
    decreases i,
{
    if i > 0 {
        lemma_allocated_le_total(avail, req, i - 1, x);
        lemma_relic_amount_nonneg(avail[i - 1].1, x);
        lemma_allocated_step(avail, req, i, x);
    }
}

/// Allocations only grow.
proof fn lemma_allocated_monotone(
    avail: Seq<(OutPoint, Seq<(SpacedRelic, u128)>)>,
    req: Seq<(SpacedRelic, u128)>,
    i: int,
    j: int,
    x: SpacedRelic,
)
    requires
        0 <= i <= j,
    ensures
        allocated_upto(avail, req, i, x) <= allocated_upto(avail, req, j, x),
    decreases j - i,
{
    if i < j {
        lemma_allocated_monotone(avail, req, i, j - 1, x);
        lemma_relic_amount_nonneg(avail[j - 1].1, x);
        lemma_allocated_step(avail, req, j, x);
    }
}

/// While a requirement stays unmet, every output that holds some of its relic is
/// taken, so all of that relic is allocated.
proof fn lemma_unmet_takes_all(
    avail: Seq<(OutPoint, Seq<(SpacedRelic, u128)>)>,
    req: Seq<(SpacedRelic, u128)>,
    k: int,
    i: int,
    n: int,
)
    requires
        0 <= k < req.len(),
        0 <= i <= n,
        allocated_upto(avail, req, n, req[k].0) < req[k].1,
    ensures
        allocated_upto(avail, req, i, req[k].0) == total_upto(avail, i, req[k].0),
    decreases i,
{
    let x = req[k].0;
    if i > 0 {
        lemma_unmet_takes_all(avail, req, k, i - 1, n);
        lemma_allocated_step(avail, req, i, x);
        if !taken(avail, req, i - 1) {
            lemma_allocated_monotone(avail, req, i - 1, n, x);
            if holds_some(avail[i - 1].1, x) {
                assert(allocated_upto(avail, req, i - 1, req[k].0) < req[k].1);
                assert(0 <= k < req.len() && allocated_upto(avail, req, i - 1, req[k].0) < req[k].1
                    && holds_some(avail[i - 1].1, req[k].0));
                assert(taken(avail, req, i - 1));
            }
            lemma_relic_amount_none(avail[i - 1].1, x);
        }
    }
}

/// The selection meets a requirement exactly when the outputs together hold enough
/// of its relic: then the taken outputs bring at least the required amount, and
/// otherwise they cannot.
pub proof fn lemma_selection_meets_requirements(
    avail: Seq<(OutPoint, Seq<(SpacedRelic, u128)>)>,
    req: Seq<(SpacedRelic, u128)>,
)
    ensures
        forall|k: int|
            0 <= k < req.len() ==> (#[trigger] allocated_upto(avail, req, avail.len() as int, req[k].0)
                >= req[k].1 <==> req[k].1 <= total_upto(avail, avail.len() as int, req[k].0)),
{
    let n = avail.len() as int;
    assert forall|k: int| 0 <= k < req.len() implies (#[trigger] allocated_upto(avail, req, n, req[k].0)
        >= req[k].1 <==> req[k].1 <= total_upto(avail, n, req[k].0)) by {
        lemma_allocated_le_total(avail, req, n, req[k].0);
        if allocated_upto(avail, req, n, req[k].0) < req[k].1 {
            lemma_unmet_takes_all(avail, req, k, n, n);
        }
    }
}

/// The position of relic `x` in the balances, if they name it.
fn position(bal: &Vec<(SpacedRelic, u128)>, x: SpacedRelic) -> (r: Option<usize>)
    ensures
        r matches Some(i) ==> i < bal@.len() && bal@[i as int].0 == x,
        r is None ==> !names(bal@, x),
{
    let mut i: usize = 0;
    while i < bal.len()
        invariant
            i <= bal@.len(),
            forall|j: int| 0 <= j < i ==> (#[trigger] bal@[j]).0 != x,
        decreases bal@.len() - i,
    {
        if bal[i].0 == x {
            return Some(i);
        }
        i = i + 1;
    }
    None
}

/// Whether the balances hold some of relic `x`.
fn has_some(bal: &Vec<(SpacedRelic, u128)>, x: SpacedRelic) -> (r: bool)
    ensures
        r == holds_some(bal@, x),
{
    let mut i: usize = 0;
    while i < bal.len()
        invariant
            i <= bal@.len(),
            forall|j: int| 0 <= j < i ==> !((#[trigger] bal@[j]).0 == x && bal@[j].1 > 0),
        decreases bal@.len() - i,
    {
        if bal[i].0 == x && bal[i].1 > 0 {
            return true;
        }
        i = i + 1;
    }
    false
}

/// How much of relic `x` an allocation holds.
fn allocated_of(alloc: &Vec<(SpacedRelic, u128)>, x: SpacedRelic) -> (r: u128)
    requires
        relics_distinct(alloc@),
    ensures
        r == relic_amount(alloc@, x),
{
    match position(alloc, x) {
        Some(i) => {
            proof {
                lemma_relic_amount_at(alloc@, i as int);
            }
            alloc[i].1
        },
        None => {
            proof {
                lemma_relic_amount_unnamed(alloc@, x);
            }
            0
        },
    }
}

/// Adds `a` of relic `x` to an allocation.
fn allocate_to(alloc: &mut Vec<(SpacedRelic, u128)>, x: SpacedRelic, a: u128)
    requires
        relics_distinct(old(alloc)@),
        relic_amount(old(alloc)@, x) + a <= u128::MAX,
    ensures
        relics_distinct(final(alloc)@),
        forall|y: SpacedRelic| #[trigger] names(final(alloc)@, y) <==> (names(old(alloc)@, y) || y == x),
        forall|y: SpacedRelic| #[trigger]
            relic_amount(final(alloc)@, y) == relic_amount(old(alloc)@, y) + if y == x {
                a as int
            } else {
                0
            },
{
    let ghost before = alloc@;
    match position(alloc, x) {
        Some(i) => {
            proof {
                lemma_relic_amount_at(before, i as int);
            }
            let cur = alloc[i].1;
            alloc.set(i, (x, cur + a));
            proof {
                assert(alloc@ == before.update(i as int, (before[i as int].0, (cur + a) as u128)));
                assert forall|y: SpacedRelic| #[trigger] relic_amount(alloc@, y) == relic_amount(before, y) + if y
                    == x {
                    a as int
                } else {
                    0
                } by {
                    lemma_relic_amount_update(before, i as int, (cur + a) as u128, y);
                }
                assert forall|y: SpacedRelic| #[trigger] names(alloc@, y) <==> (names(before, y) || y == x) by {
                    if names(alloc@, y) {
                        let j = choose|j: int| 0 <= j < alloc@.len() && (#[trigger] alloc@[j]).0 == y;
                        assert(before[j].0 == alloc@[j].0);
                    }
                    if names(before, y) {
                        let j = choose|j: int| 0 <= j < before.len() && (#[trigger] before[j]).0 == y;
                        assert(before[j].0 == alloc@[j].0);
                    }
                    if y == x {
                        assert(alloc@[i as int].0 == x);
                    }
                }
                assert forall|p: int, q: int| 0 <= p < q < alloc@.len() implies (#[trigger] alloc@[p]).0
                    != (#[trigger] alloc@[q]).0 by {
                    assert(alloc@[p].0 == before[p].0 && alloc@[q].0 == before[q].0);
                }
            }
        },
        None => {
            alloc.push((x, a));
            proof {
                assert(alloc@ == before.push((x, a)));
                assert(alloc@.drop_last() =~= before);
                assert forall|y: SpacedRelic| #[trigger] names(alloc@, y) <==> (names(before, y) || y == x) by {
                    if names(alloc@, y) {
                        let j = choose|j: int| 0 <= j < alloc@.len() && (#[trigger] alloc@[j]).0 == y;
                        if j < before.len() {
                            assert(before[j] == alloc@[j]);
                        }
                    }
                    if names(before, y) {
                        let j = choose|j: int| 0 <= j < before.len() && (#[trigger] before[j]).0 == y;
                        assert(before[j] == alloc@[j]);
                    }
                    if y == x {
                        assert(alloc@[before.len() as int].0 == x);
                    }
                }
                assert forall|p: int, q: int| 0 <= p < q < alloc@.len() implies (#[trigger] alloc@[p]).0
                    != (#[trigger] alloc@[q]).0 by {
                    if q == before.len() {
                        assert(alloc@[p] == before[p]);
                        assert(names(before, before[p].0));
                    } else {
                        assert(alloc@[p] == before[p] && alloc@[q] == before[q]);
                    }
                }
            }
        },
    }
}

/// The amount counted over a prefix is at most the whole count.
proof fn lemma_relic_amount_prefix(bal: Seq<(SpacedRelic, u128)>, t: int, x: SpacedRelic)
    requires
        0 <= t <= bal.len(),
    ensures
        relic_amount(bal.take(t), x) <= relic_amount(bal, x),
    decreases bal.len() - t,
{
    if t < bal.len() {
        lemma_relic_amount_take(bal, t, x);
        lemma_relic_amount_prefix(bal, t + 1, x);
    } else {
        assert(bal.take(t) =~= bal);
    }
}

/// A prefix one longer names one more relic.
proof fn lemma_names_take(bal: Seq<(SpacedRelic, u128)>, t: int, x: SpacedRelic)
    requires
        0 <= t < bal.len(),
    ensures
        names(bal.take(t + 1), x) <==> (names(bal.take(t), x) || bal[t].0 == x),
{
    let a = bal.take(t + 1);
    let b = bal.take(t);
    if names(a, x) {
        let j = choose|j: int| 0 <= j < a.len() && (#[trigger] a[j]).0 == x;
        if j < t {
            assert(b[j] == a[j]);
        }
    }
    if names(b, x) {
        let j = choose|j: int| 0 <= j < b.len() && (#[trigger] b[j]).0 == x;
        assert(a[j] == b[j]);
    }
    if bal[t].0 == x {
        assert(a[t] == bal[t]);
    }
}

/// One more output: it names relics for the allocation where it is taken.
proof fn lemma_touched_step(
    avail: Seq<(OutPoint, Seq<(SpacedRelic, u128)>)>,
    req: Seq<(SpacedRelic, u128)>,
    i: int,
    x: SpacedRelic,
)
    requires
        i >= 0,
    ensures
        touched(avail, req, i + 1, x) <==> (touched(avail, req, i, x) || (taken(avail, req, i) && names(
            avail[i].1,
            x,
        ))),
{
    if touched(avail, req, i + 1, x) {
        let j = choose|j: int| 0 <= j < i + 1 && #[trigger] taken(avail, req, j) && names(avail[j].1, x);
        if j < i {
            assert(touched(avail, req, i, x));
        }
    }
}

/// Nothing of a relic that no entry names, with each relic named once: what an
/// allocation counts of every relic fits in a `u128`.
proof fn lemma_relic_amount_fits(bal: Seq<(SpacedRelic, u128)>, x: SpacedRelic)
    requires
        relics_distinct(bal),
    ensures
        0 <= relic_amount(bal, x) <= u128::MAX,
{
    if names(bal, x) {
        let j = choose|j: int| 0 <= j < bal.len() && (#[trigger] bal[j]).0 == x;
        lemma_relic_amount_at(bal, j);
    } else {
        lemma_relic_amount_unnamed(bal, x);
    }
}

/// A copy of the balances.
fn copy_balances(bal: &Vec<(SpacedRelic, u128)>) -> (r: Vec<(SpacedRelic, u128)>)
    ensures
        r@ == bal@,
{
    let mut r: Vec<(SpacedRelic, u128)> = Vec::new();
    let mut i: usize = 0;
    while i < bal.len()
        invariant
            i <= bal@.len(),
            r@ == bal@.take(i as int),
        decreases bal@.len() - i,
    {
        r.push(bal[i]);
        proof {
            assert(bal@.take(i + 1) =~= bal@.take(i as int).push(bal@[i as int]));
        }
        i = i + 1;
    }
    proof {
        assert(bal@.take(i as int) =~= bal@);
    }
    r
}

/// Takes the outputs in order as the requirements ask; `None` where what some relic's
/// taken outputs bring overflows a `u128`.
fn gather(available: &[(OutPoint, Vec<(SpacedRelic, u128)>)], required: &[(SpacedRelic, u128)]) -> (r: Option<
    (Vec<OutPoint>, Vec<(SpacedRelic, u128)>),
>)
    ensures
        r is None ==> exists|x: SpacedRelic| #[trigger]
            allocated_upto(holdings(available@), required@, holdings(available@).len() as int, x) > u128::MAX,
        r is Some ==> forall|x: SpacedRelic| #[trigger]
            allocated_upto(holdings(available@), required@, holdings(available@).len() as int, x) <= u128::MAX,
        r matches Some((outs, alloc)) ==> outs@ == selected(holdings(available@), required@, holdings(available@).len() as int)
            && is_allocation(alloc@, holdings(available@), required@, holdings(available@).len() as int),
{
    let ghost avail = holdings(available@);
    let ghost req = required@;
    let mut outpoints: Vec<OutPoint> = Vec::new();
    let mut alloc: Vec<(SpacedRelic, u128)> = Vec::new();
    let mut i: usize = 0;
    while i < available.len()
        invariant
            i <= avail.len(),
            avail == holdings(available@),
            req == required@,
            outpoints@ == selected(avail, req, i as int),
            relics_distinct(alloc@),
            forall|x: SpacedRelic| #[trigger] relic_amount(alloc@, x) == allocated_upto(avail, req, i as int, x),
            forall|x: SpacedRelic| #[trigger] names(alloc@, x) <==> touched(avail, req, i as int, x),
        decreases avail.len() - i,
    {
        let bal = &available[i].1;
        let mut take = false;
        let mut k: usize = 0;
        while k < required.len()
            invariant
                k <= req.len(),
                avail == holdings(available@),
                req == required@,
                i < avail.len(),
                bal@ == avail[i as int].1,
                relics_distinct(alloc@),
                forall|x: SpacedRelic| #[trigger] relic_amount(alloc@, x) == allocated_upto(avail, req, i as int, x),
                take == exists|kk: int|
                    0 <= kk < k && allocated_upto(avail, req, i as int, req[kk].0) < req[kk].1
                        && #[trigger] holds_some(bal@, req[kk].0),
            decreases req.len() - k,
        {
            let (x, a) = required[k];
            if !take {
                let have = allocated_of(&alloc, x);
                if have < a && has_some(bal, x) {
                    take = true;
                }
            }
            k = k + 1;
        }
        proof {
            assert(take == taken(avail, req, i as int));
        }
        if take {
            outpoints.push(available[i].0);
            let mut t: usize = 0;
            while t < bal.len()
                invariant
                    t <= bal@.len(),
                    avail == holdings(available@),
                    req == required@,
                    i < avail.len(),
                    bal@ == avail[i as int].1,
                    relics_distinct(alloc@),
                    forall|x: SpacedRelic| #[trigger]
                        relic_amount(alloc@, x) == allocated_upto(avail, req, i as int, x) + relic_amount(
                            bal@.take(t as int),
                            x,
                        ),
                    forall|x: SpacedRelic| #[trigger]
                        names(alloc@, x) <==> (touched(avail, req, i as int, x) || names(bal@.take(t as int), x)),
                    taken(avail, req, i as int),
                decreases bal@.len() - t,
            {
                let (x, amount) = bal[t];
                let cur = allocated_of(&alloc, x);
                if cur > u128::MAX - amount {
                    proof {
                        lemma_relic_amount_take(bal@, t as int, x);
                        lemma_relic_amount_prefix(bal@, t + 1, x);
                        lemma_allocated_step(avail, req, i + 1, x);
                        lemma_allocated_monotone(avail, req, i + 1, avail.len() as int, x);
                        assert(allocated_upto(avail, req, avail.len() as int, x) > u128::MAX);
                    }
                    return None;
                }
                let ghost before = alloc@;
                allocate_to(&mut alloc, x, amount);
                proof {
                    assert forall|y: SpacedRelic| #[trigger] relic_amount(alloc@, y) == allocated_upto(
                        avail,
                        req,
                        i as int,
                        y,
                    ) + relic_amount(bal@.take(t + 1), y) by {
                        lemma_relic_amount_take(bal@, t as int, y);
                        assert(relic_amount(before, y) == allocated_upto(avail, req, i as int, y) + relic_amount(
                            bal@.take(t as int),
                            y,
                        ));
                    }
                    assert forall|y: SpacedRelic| #[trigger] names(alloc@, y) <==> (touched(
                        avail,
                        req,
                        i as int,
                        y,
                    ) || names(bal@.take(t + 1), y)) by {
                        lemma_names_take(bal@, t as int, y);
                        assert(names(before, y) <==> (touched(avail, req, i as int, y) || names(
                            bal@.take(t as int),
                            y,
                        )));
                    }
                }
                t = t + 1;
            }
            proof {
                assert(bal@.take(t as int) =~= bal@);
                assert forall|x: SpacedRelic| #[trigger] relic_amount(alloc@, x) == allocated_upto(
                    avail,
                    req,
                    i + 1,
                    x,
                ) by {
                    lemma_allocated_step(avail, req, i + 1, x);
                }
                assert forall|x: SpacedRelic| #[trigger] names(alloc@, x) <==> touched(avail, req, i + 1, x) by {
                    lemma_touched_step(avail, req, i as int, x);
                }
            }
        } else {
            proof {
                assert forall|x: SpacedRelic| #[trigger] relic_amount(alloc@, x) == allocated_upto(
                    avail,
                    req,
                    i + 1,
                    x,
                ) by {
                    lemma_allocated_step(avail, req, i + 1, x);
                }
                assert forall|x: SpacedRelic| #[trigger] names(alloc@, x) <==> touched(avail, req, i + 1, x) by {
                    lemma_touched_step(avail, req, i as int, x);
                }
            }
        }
        i = i + 1;
    }
    proof {
        assert forall|x: SpacedRelic| #[trigger] allocated_upto(avail, req, avail.len() as int, x)
            <= u128::MAX by {
            lemma_relic_amount_fits(alloc@, x);
            assert(relic_amount(alloc@, x) == allocated_upto(avail, req, i as int, x));
        }
    }
    Some((outpoints, alloc))
}

/// The outputs to spend for the required relics, and what they bring of each relic;
/// `None` where the outputs cannot meet some requirement, or what they bring of a
/// relic overflows.
pub fn try_select_required_relic_outputs(
    available: &[(OutPoint, Vec<(SpacedRelic, u128)>)],
    required: &[(SpacedRelic, u128)],
) -> (r: Option<(Vec<OutPoint>, Vec<(SpacedRelic, u128)>)>)
    ensures
        r is Some <==> ((forall|x: SpacedRelic| #[trigger]
            allocated_upto(holdings(available@), required@, holdings(available@).len() as int, x) <= u128::MAX) && (forall|
            k: int,
        |
            0 <= k < required@.len() ==> #[trigger] allocated_upto(
                holdings(available@),
                required@,
                holdings(available@).len() as int,
                required@[k].0,
            ) >= required@[k].1)),
        r matches Some((outs, alloc)) ==> outs@ == selected(holdings(available@), required@, holdings(available@).len() as int)
            && is_allocation(alloc@, holdings(available@), required@, holdings(available@).len() as int),
{
    let ghost n = holdings(available@).len() as int;
    let (outpoints, alloc) = match gather(available, required) {
        Some(p) => p,
        None => {
            return None;
        },
    };
    let mut k: usize = 0;
    while k < required.len()
        invariant
            k <= required@.len(),
            is_allocation(alloc@, holdings(available@), required@, n),
            n == holdings(available@).len(),
            forall|j: int|
                0 <= j < k ==> #[trigger] allocated_upto(holdings(available@), required@, n, required@[j].0)
                    >= required@[j].1,
        decreases required@.len() - k,
    {
        let (x, a) = required[k];
        if allocated_of(&alloc, x) < a {
            return None;
        }
        k = k + 1;
    }
    Some((outpoints, alloc))
}

/// The outputs to spend for the required relics, and what they bring of each relic:
/// the outputs are taken in order, each one that holds some of a relic whose
/// requirement the outputs taken before it do not meet yet, with all it holds.
/// Every requirement is then met.
pub fn select_required_relic_outputs(
    available: &[(OutPoint, Vec<(SpacedRelic, u128)>)],
    required: &[(SpacedRelic, u128)],
) -> (r: (Vec<OutPoint>, Vec<(SpacedRelic, u128)>))
    requires
        forall|x: SpacedRelic| #[trigger]
            allocated_upto(holdings(available@), required@, holdings(available@).len() as int, x) <= u128::MAX,
        forall|k: int|
            0 <= k < required@.len() ==> required@[k].1 <= #[trigger] total_upto(
                holdings(available@),
                holdings(available@).len() as int,
                required@[k].0,
            ),
    ensures
        r.0@ == selected(holdings(available@), required@, holdings(available@).len() as int),
        is_allocation(r.1@, holdings(available@), required@, holdings(available@).len() as int),
        forall|k: int|
            0 <= k < required@.len() ==> #[trigger] relic_amount(r.1@, required@[k].0) >= required@[k].1,
{
    let ghost n = holdings(available@).len() as int;
    proof {
        lemma_selection_meets_requirements(holdings(available@), required@);
    }
    match try_select_required_relic_outputs(available, required) {
        Some(p) => p,
        None => {
            proof {
                assert(false);
            }
            (Vec::new(), Vec::new())
        },
    }
}

/// The wallet outputs that may be spent for relics, in order: those that hold relics
/// and carry neither an inscription nor runes.
pub open spec fn candidates(
    outputs: Seq<(OutPoint, Seq<(SpacedRelic, u128)>)>,
    inscribed: Seq<OutPoint>,
    runic: Seq<OutPoint>,
) -> Seq<(OutPoint, Seq<(SpacedRelic, u128)>)>
    decreases outputs.len(),
{
    if outputs.len() == 0 {
        Seq::empty()
    } else {
        let prev = candidates(outputs.drop_last(), inscribed, runic);
        let o = outputs.last();
        if o.1.len() > 0 && !inscribed.contains(o.0) && !runic.contains(o.0) {
            prev.push(o)
        } else {
            prev
        }
    }
}

fn contains_outpoint(s: &[OutPoint], o: OutPoint) -> (r: bool)
    ensures
        r == s@.contains(o),
{
    let mut i: usize = 0;
    while i < s.len()
        invariant
            i <= s@.len(),
            forall|j: int| 0 <= j < i ==> s@[j] != o,
        decreases s@.len() - i,
    {
        if s[i] == o {
            assert(s@[i as int] == o);
            return true;
        }
        i = i + 1;
    }
    false
}

/// The wallet outputs that may be spent for relics, with what each holds.
pub fn relic_candidates(
    outputs: &[(OutPoint, Vec<(SpacedRelic, u128)>)],
    inscribed: &[OutPoint],
    runic: &[OutPoint],
) -> (r: Vec<(OutPoint, Vec<(SpacedRelic, u128)>)>)
    ensures
        holdings(r@) == candidates(holdings(outputs@), inscribed@, runic@),
{
    let mut r: Vec<(OutPoint, Vec<(SpacedRelic, u128)>)> = Vec::new();
    let mut i: usize = 0;
    while i < outputs.len()
        invariant
            i <= outputs@.len(),
            holdings(r@) == candidates(holdings(outputs@).take(i as int), inscribed@, runic@),
        decreases outputs@.len() - i,
    {
        let ghost before = r@;
        let o = outputs[i].0;
        let bal = &outputs[i].1;
        proof {
            let h = holdings(outputs@).take(i + 1);
            assert(h.drop_last() =~= holdings(outputs@).take(i as int));
            assert(h.last() == (o, bal@));
        }
        if bal.len() > 0 && !contains_outpoint(inscribed, o) && !contains_outpoint(runic, o) {
            r.push((o, copy_balances(bal)));
            proof {
                assert(holdings(r@) =~= holdings(before).push((o, bal@)));
            }
        }
        i = i + 1;
    }
    proof {
        assert(holdings(outputs@).take(i as int) =~= holdings(outputs@));
    }
    r
}

/// The outputs to spend for the required relics, among the wallet's outputs that
/// hold relics and carry neither an inscription nor runes, and what they bring of
/// each relic; `None` where they cannot meet some requirement, or what they bring of
/// a relic overflows.
pub fn get_required_relic_outputs(
    outputs: &[(OutPoint, Vec<(SpacedRelic, u128)>)],
    inscribed: &[OutPoint],
    runic: &[OutPoint],
    required: &[(SpacedRelic, u128)],
) -> (r: Option<(Vec<OutPoint>, Vec<(SpacedRelic, u128)>)>)
    ensures
        ({
            let c = candidates(holdings(outputs@), inscribed@, runic@);
            &&& r is Some <==> ((forall|x: SpacedRelic| #[trigger] allocated_upto(c, required@, c.len() as int, x)
                <= u128::MAX) && (forall|k: int|
                0 <= k < required@.len() ==> #[trigger] allocated_upto(c, required@, c.len() as int, required@[k].0)
                    >= required@[k].1))
            &&& r matches Some((outs, alloc)) ==> outs@ == selected(c, required@, c.len() as int) && is_allocation(
                alloc@,
                c,
                required@,
                c.len() as int,
            )
        }),
{
    let available = relic_candidates(outputs, inscribed, runic);
    try_select_required_relic_outputs(available.as_slice(), required)
}

} // verus!
