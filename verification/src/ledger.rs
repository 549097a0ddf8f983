use crate::relic_id::RelicId;
use vstd::prelude::*;

verus! {

/// The amount a map holds for an id, zero where it holds none.
pub open spec fn amount(m: Map<RelicId, u128>, id: RelicId) -> u128 {
    if m.contains_key(id) {
        m[id]
    } else {
        0
    }
}

/// No id occurs twice.
pub open spec fn keys_distinct(s: Seq<(RelicId, u128)>) -> bool {
    forall|i: int, j: int| 0 <= i < j < s.len() ==> s[i].0 != s[j].0
}

/// The map that the pairs spell, a later pair for an id winning.
pub open spec fn seq_to_map(s: Seq<(RelicId, u128)>) -> Map<RelicId, u128>
    decreases s.len(),
{
    if s.len() == 0 {
        Map::empty()
    } else {
        seq_to_map(s.drop_last()).insert(s.last().0, s.last().1)
    }
}

pub proof fn lemma_seq_to_map_contains(s: Seq<(RelicId, u128)>, k: RelicId)
    ensures
        seq_to_map(s).contains_key(k) <==> exists|i: int| 0 <= i < s.len() && s[i].0 == k,
    decreases s.len(),
{
    if s.len() > 0 {
        lemma_seq_to_map_contains(s.drop_last(), k);
        if seq_to_map(s).contains_key(k) {
            if s.last().0 == k {
                assert(s[s.len() - 1].0 == k);
            } else {
                let i = choose|i: int| 0 <= i < s.drop_last().len() && s.drop_last()[i].0 == k;
                assert(s[i].0 == k);
            }
        } else {
            assert forall|i: int| 0 <= i < s.len() implies s[i].0 != k by {
                if i < s.len() - 1 {
                    assert(s.drop_last()[i] == s[i]);
                }
            }
        }
    }
}

pub proof fn lemma_seq_to_map_index(s: Seq<(RelicId, u128)>, i: int)
    requires
        keys_distinct(s),
        0 <= i < s.len(),
    ensures
        seq_to_map(s).contains_key(s[i].0),
        seq_to_map(s)[s[i].0] == s[i].1,
    decreases s.len(),
{
    if i < s.len() - 1 {
        assert(s.drop_last()[i] == s[i]);
        lemma_seq_to_map_index(s.drop_last(), i);
        assert(s.last().0 != s[i].0);
    }
}

pub proof fn lemma_seq_to_map_update(s: Seq<(RelicId, u128)>, i: int, v: u128)
    requires
        keys_distinct(s),
        0 <= i < s.len(),
    ensures
        seq_to_map(s.update(i, (s[i].0, v))) == seq_to_map(s).insert(s[i].0, v),
        keys_distinct(s.update(i, (s[i].0, v))),
    decreases s.len(),
{
    let t = s.update(i, (s[i].0, v));
    if i == s.len() - 1 {
        assert(t.drop_last() =~= s.drop_last());
        lemma_seq_to_map_contains(s.drop_last(), s[i].0);
        assert(seq_to_map(t) =~= seq_to_map(s).insert(s[i].0, v));
    } else {
        assert(t.drop_last() =~= s.drop_last().update(i, (s[i].0, v)));
        assert(s.drop_last()[i] == s[i]);
        lemma_seq_to_map_update(s.drop_last(), i, v);
        assert(s.last().0 != s[i].0);
        assert(seq_to_map(t) =~= seq_to_map(s).insert(s[i].0, v));
    }
}

pub proof fn lemma_seq_to_map_push(s: Seq<(RelicId, u128)>, k: RelicId, v: u128)
    requires
        keys_distinct(s),
        !seq_to_map(s).contains_key(k),
    ensures
        seq_to_map(s.push((k, v))) == seq_to_map(s).insert(k, v),
        keys_distinct(s.push((k, v))),
{
    assert(s.push((k, v)).drop_last() =~= s);
    lemma_seq_to_map_contains(s, k);
}

pub proof fn lemma_seq_to_map_finite(s: Seq<(RelicId, u128)>)
    ensures
        seq_to_map(s).dom().finite(),
    decreases s.len(),
{
    if s.len() > 0 {
        lemma_seq_to_map_finite(s.drop_last());
    }
}

/// Amounts of relics by id, each id at most once.
#[derive(Clone, Debug)]
pub struct Ledger {
    entries: Vec<(RelicId, u128)>,
}

impl View for Ledger {
    type V = Map<RelicId, u128>;

    closed spec fn view(&self) -> Map<RelicId, u128> {
        seq_to_map(self.entries@)
    }
}

impl Ledger {
    /// Each id occurs once.
    pub closed spec fn wf(&self) -> bool {
        keys_distinct(self.entries@)
    }

    /// The pairs in the order that `entry` hands them out.
    pub closed spec fn pairs(&self) -> Seq<(RelicId, u128)> {
        self.entries@
    }

    /// The pairs hand out the ledger: each once, with its amount.
    pub proof fn lemma_pairs(&self)
        requires
            self.wf(),
        ensures
            keys_distinct(self.pairs()),
            forall|i: int|
                0 <= i < self.pairs().len() ==> self@.contains_key(#[trigger] self.pairs()[i].0)
                    && self@[self.pairs()[i].0] == self.pairs()[i].1,
            forall|k: RelicId|
                #[trigger] self@.contains_key(k) ==> exists|i: int|
                    0 <= i < self.pairs().len() && self.pairs()[i].0 == k,
            self@.dom().finite(),
            self@.dom().len() == self.pairs().len(),
            self@ == seq_to_map(self.pairs()),
    {
        assert forall|i: int| 0 <= i < self.pairs().len() implies self@.contains_key(
            #[trigger] self.pairs()[i].0,
        ) && self@[self.pairs()[i].0] == self.pairs()[i].1 by {
            lemma_seq_to_map_index(self.entries@, i);
        }
        assert forall|k: RelicId| #[trigger] self@.contains_key(k) implies exists|i: int|
            0 <= i < self.pairs().len() && self.pairs()[i].0 == k by {
            lemma_seq_to_map_contains(self.entries@, k);
            let i = choose|i: int| 0 <= i < self.entries@.len() && self.entries@[i].0 == k;
            assert(self.pairs()[i].0 == k);
        }
        lemma_seq_to_map_finite(self.entries@);
        lemma_dom_len(self.entries@);
    }

    pub fn new() -> (l: Ledger)
        ensures
            l.wf(),
            l@ == Map::<RelicId, u128>::empty(),
    {
        Ledger { entries: Vec::new() }
    }

    /// The number of ids held.
    pub fn len(&self) -> (n: usize)
        ensures
            n == self.pairs().len(),
    {
        self.entries.len()
    }

    /// The `i`-th pair.
    pub fn entry(&self, i: usize) -> (e: (RelicId, u128))
        requires
            i < self.pairs().len(),
        ensures
            e == self.pairs()[i as int],
    {
        self.entries[i]
    }

    fn find(&self, id: RelicId) -> (r: Option<usize>)
        requires
            self.wf(),
        ensures
            r matches Some(i) ==> i < self.entries@.len() && self.entries@[i as int].0 == id,
            r is None ==> !self@.contains_key(id),
    {
        let mut i: usize = 0;
        while i < self.entries.len()
            invariant
                i <= self.entries@.len(),
                forall|j: int| 0 <= j < i ==> self.entries@[j].0 != id,
            decreases self.entries@.len() - i,
        {
            if self.entries[i].0 == id {
                return Some(i);
            }
            i = i + 1;
        }
        proof {
            lemma_seq_to_map_contains(self.entries@, id);
        }
        None
    }

    /// Whether the ledger holds an entry for the id.
    pub fn contains(&self, id: RelicId) -> (r: bool)
        requires
            self.wf(),
        ensures
            r == self@.contains_key(id),
    {
        match self.find(id) {
            Some(i) => {
                proof {
                    lemma_seq_to_map_index(self.entries@, i as int);
                }
                true
            },
            None => false,
        }
    }

    /// The amount held for the id, zero where there is no entry.
    pub fn get(&self, id: RelicId) -> (r: u128)
        requires
            self.wf(),
        ensures
            r == amount(self@, id),
    {
        match self.find(id) {
            Some(i) => {
                proof {
                    lemma_seq_to_map_index(self.entries@, i as int);
                }
                self.entries[i].1
            },
            None => 0,
        }
    }

    /// Sets the amount held for the id, adding an entry where there is none.
    pub fn set(&mut self, id: RelicId, value: u128)
        requires
            old(self).wf(),
        ensures
            final(self).wf(),
            final(self)@ == old(self)@.insert(id, value),
    {
        match self.find(id) {
            Some(i) => {
                proof {
                    lemma_seq_to_map_update(self.entries@, i as int, value);
                }
                self.entries.set(i, (id, value));
            },
            None => {
                proof {
                    lemma_seq_to_map_push(self.entries@, id, value);
                }
                self.entries.push((id, value));
            },
        }
    }

    /// Adds to the amount held for the id.
    pub fn add(&mut self, id: RelicId, value: u128)
        requires
            old(self).wf(),
            amount(old(self)@, id) + value <= u128::MAX,
        ensures
            final(self).wf(),
            final(self)@ == old(self)@.insert(id, (amount(old(self)@, id) + value) as u128),
    {
        let current = self.get(id);
        self.set(id, current + value);
    }

    /// The pairs, each id once.
    pub fn to_pairs(&self) -> (r: Vec<(RelicId, u128)>)
        requires
            self.wf(),
        ensures
            r@ == self.pairs(),
            keys_distinct(r@),
            seq_to_map(r@) == self@,
    {
        let mut r: Vec<(RelicId, u128)> = Vec::new();
        let mut i: usize = 0;
        while i < self.entries.len()
            invariant
                i <= self.entries@.len(),
                r@ == self.entries@.take(i as int),
            decreases self.entries@.len() - i,
        {
            r.push(self.entries[i]);
            proof {
                assert(r@ =~= self.entries@.take(i + 1));
            }
            i = i + 1;
        }
        proof {
            assert(r@ =~= self.entries@);
        }
        r
    }

    /// Removes all entries.
    pub fn clear(&mut self)
        ensures
            final(self).wf(),
            final(self)@ == Map::<RelicId, u128>::empty(),
    {
        self.entries.clear();
        proof {
            assert(self.entries@ =~= Seq::<(RelicId, u128)>::empty());
        }
    }
}

proof fn lemma_dom_len(s: Seq<(RelicId, u128)>)
    requires
        keys_distinct(s),
    ensures
        seq_to_map(s).dom().len() == s.len(),
    decreases s.len(),
{
    if s.len() > 0 {
        let p = s.drop_last();
        assert(keys_distinct(p));
        lemma_dom_len(p);
        lemma_seq_to_map_contains(p, s.last().0);
        lemma_seq_to_map_finite(p);
        assert(!seq_to_map(p).contains_key(s.last().0)) by {
            if seq_to_map(p).contains_key(s.last().0) {
                let i = choose|i: int| 0 <= i < p.len() && p[i].0 == s.last().0;
                assert(s[i].0 == s[s.len() - 1].0);
            }
        }
        assert(seq_to_map(s).dom() =~= seq_to_map(p).dom().insert(s.last().0));
    }
}

} // verus!
