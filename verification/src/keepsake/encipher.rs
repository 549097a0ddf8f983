use crate::encode::{
    all_decode, encode_all, lemma_all_decode_append, lemma_encode_all_append, lemma_integers_roundtrip,
    push_varints, tag_pairs,
};
use crate::enshrining::{BoostTerms, Enshrining, MintTerms, MultiMint, PriceModel};
use crate::keepsake::flag::Flag;
use crate::keepsake::tag::Tag;
use crate::keepsake::{
    spec_integers, spec_output_payload, spec_pushes, Keepsake, KeepsakeView, PayloadView,
    MAGIC_NUMBER, OP_RETURN,
};
use crate::relic_id::RelicId;
use crate::script::{
    parses_cleanly, push_opcode, push_slice, script_instructions, InstructionView,
};
use crate::swap::Swap;
use crate::transfer::Transfer;
use vstd::prelude::*;

verus! {

/// The largest data push a script may hold.
pub const MAX_SCRIPT_ELEMENT_SIZE: usize = 520;

/// The payload cut into consecutive pieces of `MAX_SCRIPT_ELEMENT_SIZE` bytes, the last
/// one holding what is left (none for an empty payload).
pub open spec fn payload_chunks(p: Seq<u8>) -> Seq<Seq<u8>>
    decreases p.len(),
{
    if p.len() == 0 {
        seq![]
    } else if p.len() <= MAX_SCRIPT_ELEMENT_SIZE {
        seq![p]
    } else {
        seq![p.take(MAX_SCRIPT_ELEMENT_SIZE as int)] + payload_chunks(p.skip(MAX_SCRIPT_ELEMENT_SIZE as int))
    }
}

/// One data push for each piece.
pub open spec fn pushes_of(chunks: Seq<Seq<u8>>) -> Seq<InstructionView> {
    chunks.map_values(|c: Seq<u8>| InstructionView::PushBytes(c))
}

/// `tag, v`.
pub open spec fn pair(tag: Tag, v: u128) -> Seq<u128> {
    tag_pairs(tag.value(), seq![v])
}

/// `tag, v` where the value is set.
pub open spec fn opt_pair(tag: Tag, v: Option<u128>) -> Seq<u128> {
    match v {
        Some(x) => pair(tag, x),
        None => Seq::empty(),
    }
}

/// `tag, block, tag, tx`.
pub open spec fn id_pairs(tag: Tag, id: RelicId) -> Seq<u128> {
    tag_pairs(tag.value(), seq![id.block as u128, id.tx as u128])
}

pub open spec fn wide32(o: Option<u32>) -> Option<u128> {
    match o {
        Some(v) => Some(v as u128),
        None => None,
    }
}

pub open spec fn wide16(o: Option<u16>) -> Option<u128> {
    match o {
        Some(v) => Some(v as u128),
        None => None,
    }
}

pub open spec fn wide8(o: Option<u8>) -> Option<u128> {
    match o {
        Some(v) => Some(v as u128),
        None => None,
    }
}

pub open spec fn wide_char(o: Option<char>) -> Option<u128> {
    match o {
        Some(c) => Some((c as u32) as u128),
        None => None,
    }
}

pub open spec fn boost_ints(b: BoostTerms) -> Seq<u128> {
    opt_pair(Tag::RareChance, wide32(b.rare_chance)) + opt_pair(
        Tag::RareMultiplierCap,
        wide16(b.rare_multiplier_cap),
    ) + opt_pair(Tag::UltraRareChance, wide32(b.ultra_rare_chance)) + opt_pair(
        Tag::UltraRareMultiplierCap,
        wide16(b.ultra_rare_multiplier_cap),
    )
}

pub open spec fn price_ints(p: Option<PriceModel>) -> Seq<u128> {
    match p {
        Some(PriceModel::Fixed(x)) => pair(Tag::Price, x),
        Some(PriceModel::Formula { a, b, c }) => pair(Tag::PriceFormulaA, a) + pair(
            Tag::PriceFormulaB,
            b,
        ) + pair(Tag::PriceFormulaC, c),
        None => Seq::empty(),
    }
}

pub open spec fn terms_ints(t: MintTerms) -> Seq<u128> {
    opt_pair(Tag::Amount, t.amount) + opt_pair(Tag::BlockCap, wide32(t.block_cap)) + opt_pair(
        Tag::TxCap,
        wide8(t.tx_cap),
    ) + opt_pair(Tag::Cap, t.cap) + price_ints(t.price) + opt_pair(Tag::Seed, t.seed) + opt_pair(
        Tag::MaxUnmints,
        wide32(t.max_unmints),
    )
}

pub open spec fn enshrining_ints(e: Enshrining) -> Seq<u128> {
    opt_pair(Tag::Symbol, wide_char(e.symbol)) + opt_pair(Tag::Fee, wide16(e.fee)) + (match e.boost_terms {
        Some(b) => boost_ints(b),
        None => Seq::empty(),
    }) + (match e.mint_terms {
        Some(t) => terms_ints(t),
        None => Seq::empty(),
    }) + opt_pair(Tag::Subsidy, e.subsidy)
}

pub open spec fn mint_ints(m: MultiMint) -> Seq<u128> {
    (if m.is_unmint {
        pair(Tag::MultiMintIsUnmint, 1)
    } else {
        Seq::empty()
    }) + pair(Tag::MultiMintCount, m.count as u128) + pair(Tag::MultiMintBaseLimit, m.base_limit)
        + id_pairs(Tag::MultiMintRelic, m.relic)
}

pub open spec fn swap_ints(s: Swap) -> Seq<u128> {
    (match s.input {
        Some(id) => id_pairs(Tag::SwapInput, id),
        None => Seq::empty(),
    }) + (match s.output {
        Some(id) => id_pairs(Tag::SwapOutput, id),
        None => Seq::empty(),
    }) + opt_pair(Tag::SwapInputAmount, s.input_amount) + opt_pair(
        Tag::SwapOutputAmount,
        s.output_amount,
    )
}

/// The flags of a keepsake: sealing, enshrining, boost terms, mint terms, multi mint,
/// swap and exact input, each where it applies.
pub open spec fn spec_flags(k: KeepsakeView) -> u128 {
    let f1: u128 = if k.sealing {
        0u128 | Flag::Sealing.spec_mask()
    } else {
        0
    };
    let f2: u128 = if k.enshrining is Some {
        f1 | Flag::Enshrining.spec_mask()
    } else {
        f1
    };
    let f3: u128 = if k.enshrining is Some && k.enshrining.unwrap().boost_terms is Some {
        f2 | Flag::BoostTerms.spec_mask()
    } else {
        f2
    };
    let f4: u128 = if k.enshrining is Some && k.enshrining.unwrap().mint_terms is Some {
        f3 | Flag::MintTerms.spec_mask()
    } else {
        f3
    };
    let f5: u128 = if k.mint is Some {
        f4 | Flag::MultiMint.spec_mask()
    } else {
        f4
    };
    let f6: u128 = if k.swap is Some {
        f5 | Flag::Swap.spec_mask()
    } else {
        f5
    };
    if k.swap is Some && k.swap.unwrap().is_exact_input {
        f6 | Flag::SwapExactInput.spec_mask()
    } else {
        f6
    }
}

/// `a` comes no later than `b`: by block, then by transaction.
pub open spec fn id_le(a: RelicId, b: RelicId) -> bool {
    a.block < b.block || (a.block == b.block && a.tx <= b.tx)
}

/// Inserts `t` after every transfer whose id is no later than its own.
pub open spec fn insert_sorted(s: Seq<Transfer>, t: Transfer) -> Seq<Transfer>
    decreases s.len(),
{
    if s.len() == 0 {
        seq![t]
    } else if id_le(s.last().id, t.id) {
        s.push(t)
    } else {
        insert_sorted(s.drop_last(), t).push(s.last())
    }
}

/// The transfers in the order of their ids, those with equal ids in their order: a
/// stable sort by id.
pub open spec fn sort_transfers(s: Seq<Transfer>) -> Seq<Transfer>
    decreases s.len(),
{
    if s.len() == 0 {
        Seq::empty()
    } else {
        insert_sorted(sort_transfers(s.drop_last()), s.last())
    }
}

pub open spec fn sorted_by_id(s: Seq<Transfer>) -> bool {
    forall|i: int, j: int| 0 <= i < j < s.len() ==> id_le(#[trigger] s[i].id, #[trigger] s[j].id)
}

/// The id before the `i`-th transfer: the previous transfer's, `0:0` for the first.
pub open spec fn prev_id(ts: Seq<Transfer>, i: int) -> RelicId {
    if i == 0 {
        RelicId { block: 0, tx: 0 }
    } else {
        ts[i - 1].id
    }
}

/// A transfer of the body: the delta of its id from the previous id, its amount and
/// its output.
pub open spec fn transfer_ints(prev: RelicId, t: Transfer) -> Seq<u128> {
    let d = prev.spec_delta(t.id).unwrap();
    seq![d.0, d.1, t.amount, t.output as u128]
}

/// The body integers of transfers in id order.
pub open spec fn body_ints(ts: Seq<Transfer>) -> Seq<u128>
    decreases ts.len(),
{
    if ts.len() == 0 {
        Seq::empty()
    } else {
        body_ints(ts.drop_last()) + transfer_ints(prev_id(ts, ts.len() - 1), ts.last())
    }
}

/// The integers a keepsake is written as: its fields as tag and value pairs, then
/// the flags, pointer and claim, then (where there are transfers) the body tag and
/// the transfers sorted by id with their ids delta-encoded.
pub open spec fn spec_keepsake_integers(k: KeepsakeView) -> Seq<u128> {
    let flags = spec_flags(k);
    (match k.enshrining {
        Some(e) => enshrining_ints(e),
        None => Seq::empty(),
    }) + (match k.mint {
        Some(m) => mint_ints(m),
        None => Seq::empty(),
    }) + (match k.swap {
        Some(s) => swap_ints(s),
        None => Seq::empty(),
    }) + (if flags != 0 {
        pair(Tag::Flags, flags)
    } else {
        Seq::empty()
    }) + opt_pair(Tag::Pointer, wide32(k.pointer)) + opt_pair(Tag::Claim, wide32(k.claim)) + (
    if k.transfers.len() > 0 {
        seq![0u128] + body_ints(sort_transfers(k.transfers))
    } else {
        Seq::empty()
    })
}

proof fn lemma_insert_sorted_at(s: Seq<Transfer>, t: Transfer, p: int)
    requires
        0 <= p <= s.len(),
        p == 0 || id_le(s[p - 1].id, t.id),
        forall|q: int| p <= q < s.len() ==> !id_le(#[trigger] s[q].id, t.id),
    ensures
        insert_sorted(s, t) == s.take(p).push(t) + s.skip(p),
    decreases s.len(),
{
    if s.len() == 0 {
        assert(s.take(p).push(t) + s.skip(p) =~= seq![t]);
    } else if p == s.len() {
        assert(s.take(p).push(t) + s.skip(p) =~= s.push(t));
    } else {
        assert(!id_le(s[s.len() - 1].id, t.id));
        let d = s.drop_last();
        assert forall|q: int| p <= q < d.len() implies !id_le(#[trigger] d[q].id, t.id) by {
            assert(d[q] == s[q]);
        }
        if p > 0 {
            assert(d[p - 1] == s[p - 1]);
        }
        lemma_insert_sorted_at(d, t, p);
        assert(d.take(p).push(t) + d.skip(p) == insert_sorted(d, t));
        assert(insert_sorted(s, t) =~= s.take(p).push(t) + s.skip(p));
    }
}

proof fn lemma_insert_sorted_sorted(s: Seq<Transfer>, t: Transfer)
    requires
        sorted_by_id(s),
    ensures
        sorted_by_id(insert_sorted(s, t)),
        insert_sorted(s, t).len() == s.len() + 1,
        forall|i: int|
            0 <= i < insert_sorted(s, t).len() ==> (#[trigger] insert_sorted(s, t)[i] == t || s.contains(
                insert_sorted(s, t)[i],
            )),
    decreases s.len(),
{
    if s.len() == 0 {
    } else if id_le(s.last().id, t.id) {
        let r = s.push(t);
        assert forall|i: int, j: int| 0 <= i < j < r.len() implies id_le(
            #[trigger] r[i].id,
            #[trigger] r[j].id,
        ) by {
            if j == s.len() {
                assert(id_le(s[i].id, s[s.len() - 1].id) || i == s.len() - 1);
            }
        }
        assert forall|i: int| 0 <= i < r.len() implies (#[trigger] r[i] == t || s.contains(r[i])) by {
            if i < s.len() {
                assert(r[i] == s[i]);
            }
        }
    } else {
        let d = s.drop_last();
        assert(sorted_by_id(d)) by {
            assert forall|i: int, j: int| 0 <= i < j < d.len() implies id_le(
                #[trigger] d[i].id,
                #[trigger] d[j].id,
            ) by {
                assert(d[i] == s[i] && d[j] == s[j]);
            }
        }
        lemma_insert_sorted_sorted(d, t);
        let m = insert_sorted(d, t);
        let r = m.push(s.last());
        assert forall|i: int, j: int| 0 <= i < j < r.len() implies id_le(
            #[trigger] r[i].id,
            #[trigger] r[j].id,
        ) by {
            if j == m.len() {
                assert(r[i] == m[i]);
                if m[i] != t {
                    assert(d.contains(m[i]));
                    let k = choose|k: int| 0 <= k < d.len() && d[k] == m[i];
                    assert(s[k] == d[k]);
                    assert(id_le(s[k].id, s[s.len() - 1].id));
                }
            } else {
                assert(r[i] == m[i] && r[j] == m[j]);
            }
        }
        assert forall|i: int| 0 <= i < r.len() implies (#[trigger] r[i] == t || s.contains(r[i])) by {
            if i < m.len() {
                assert(r[i] == m[i]);
                if m[i] != t {
                    let k = choose|k: int| 0 <= k < d.len() && d[k] == m[i];
                    assert(s[k] == d[k]);
                }
            } else {
                assert(s[s.len() - 1] == r[i]);
            }
        }
    }
}

/// The stable sort by id gives transfers sorted by id, each one of the transfers
/// sorted.
pub proof fn lemma_sort_transfers_sorted(s: Seq<Transfer>)
    ensures
        sorted_by_id(sort_transfers(s)),
        sort_transfers(s).len() == s.len(),
        forall|i: int| 0 <= i < s.len() ==> s.contains(#[trigger] sort_transfers(s)[i]),
    decreases s.len(),
{
    if s.len() > 0 {
        let d = s.drop_last();
        lemma_sort_transfers_sorted(d);
        lemma_insert_sorted_sorted(sort_transfers(d), s.last());
        let r = sort_transfers(s);
        assert forall|i: int| 0 <= i < s.len() implies s.contains(#[trigger] r[i]) by {
            if r[i] == s.last() {
                assert(s[s.len() - 1] == r[i]);
            } else {
                let j = choose|j: int| 0 <= j < sort_transfers(d).len() && sort_transfers(d)[j] == r[i];
                let q = choose|q: int| 0 <= q < d.len() && d[q] == sort_transfers(d)[j];
                assert(s[q] == d[q]);
            }
        }
    }
}

/// No transfers, or one, are already sorted.
pub proof fn lemma_sort_small(s: Seq<Transfer>)
    requires
        s.len() <= 1,
    ensures
        sort_transfers(s) == s,
{
    if s.len() == 1 {
        assert(s.drop_last() =~= Seq::<Transfer>::empty());
        assert(sort_transfers(s.drop_last()) =~= Seq::<Transfer>::empty());
        assert(insert_sorted(Seq::<Transfer>::empty(), s.last()) =~= s);
    } else {
        assert(s =~= Seq::<Transfer>::empty());
    }
}

/// Sorts transfers by id, keeping the order of those with equal ids.
pub fn sort_by_id(transfers: &Vec<Transfer>) -> (r: Vec<Transfer>)
    ensures
        r@ == sort_transfers(transfers@),
{
    let mut out: Vec<Transfer> = Vec::new();
    let mut i: usize = 0;
    proof {
        assert(transfers@.take(0) =~= Seq::<Transfer>::empty());
    }
    while i < transfers.len()
        invariant
            i <= transfers@.len(),
            out@ == sort_transfers(transfers@.take(i as int)),
        decreases transfers@.len() - i,
    {
        let t = transfers[i];
        let mut p: usize = out.len();
        while p > 0 && !(out[p - 1].id.block < t.id.block || (out[p - 1].id.block == t.id.block
            && out[p - 1].id.tx <= t.id.tx))
            invariant
                p <= out@.len(),
                forall|q: int| p <= q < out@.len() ==> !id_le(#[trigger] out@[q].id, t.id),
            decreases p,
        {
            p = p - 1;
        }
        proof {
            lemma_insert_sorted_at(out@, t, p as int);
            assert(transfers@.take(i + 1).drop_last() =~= transfers@.take(i as int));
            assert(transfers@.take(i + 1).last() == t);
        }
        out.insert(p, t);
        proof {
            assert(out@ =~= sort_transfers(transfers@.take(i + 1)));
        }
        i = i + 1;
    }
    proof {
        assert(transfers@.take(i as int) =~= transfers@);
    }
    out
}

impl Tag {
    /// Appends `tag, v` as varints for each of the values.
    pub fn encode(self, values: &[u128], payload: &mut Vec<u8>)
        ensures
            final(payload)@ == old(payload)@ + encode_all(tag_pairs(self.value(), values@)),
            all_decode(tag_pairs(self.value(), values@)),
    {
        let mut ints: Vec<u128> = Vec::new();
        let tag = self.to_u128();
        let mut i: usize = 0;
        proof {
            assert(values@.take(0) =~= Seq::<u128>::empty());
        }
        while i < values.len()
            invariant
                i <= values@.len(),
                tag == self.value(),
                ints@ == tag_pairs(tag, values@.take(i as int)),
            decreases values@.len() - i,
        {
            ints.push(tag);
            ints.push(values[i]);
            proof {
                assert(values@.take(i + 1).drop_last() =~= values@.take(i as int));
                assert(values@.take(i + 1).last() == values@[i as int]);
                assert(ints@ =~= tag_pairs(tag, values@.take(i + 1)));
            }
            i = i + 1;
        }
        proof {
            assert(values@.take(i as int) =~= values@);
        }
        push_varints(payload, ints.as_slice());
    }

    /// Appends `tag, v` where the value is set.
    pub fn encode_option(self, value: Option<u128>, payload: &mut Vec<u8>)
        ensures
            final(payload)@ == old(payload)@ + encode_all(opt_pair(self, value)),
            all_decode(opt_pair(self, value)),
    {
        if let Some(v) = value {
            let vals: Vec<u128> = vec![v];
            proof {
                assert(vals@ =~= seq![v]);
            }
            self.encode(vals.as_slice(), payload);
        } else {
            proof {
                assert(encode_all(opt_pair(self, value)) =~= Seq::<u8>::empty());
                assert(payload@ =~= old(payload)@ + encode_all(opt_pair(self, value)));
            }
        }
    }
}

/// The payload so far is the encoding of `ints`, each of which decodes.
spec fn encoded(payload: Seq<u8>, ints: Seq<u128>) -> bool {
    payload == encode_all(ints) && all_decode(ints)
}

/// Appends `tag, v` where the value is set, and the same to the integers so far.
fn put_option(payload: &mut Vec<u8>, Ghost(ints): Ghost<Seq<u128>>, tag: Tag, value: Option<u128>) -> (r: Ghost<Seq<u128>>)
    requires
        encoded(old(payload)@, ints),
    ensures
        encoded(final(payload)@, r@),
        r@ == ints + opt_pair(tag, value),
{
    let ghost before = payload@;
    tag.encode_option(value, payload);
    proof {
        lemma_encode_all_append(ints, opt_pair(tag, value));
        lemma_all_decode_append(ints, opt_pair(tag, value));
    }
    Ghost(ints + opt_pair(tag, value))
}

/// Appends `tag, v`, and the same to the integers so far.
fn put(payload: &mut Vec<u8>, Ghost(ints): Ghost<Seq<u128>>, tag: Tag, value: u128) -> (r: Ghost<Seq<u128>>)
    requires
        encoded(old(payload)@, ints),
    ensures
        encoded(final(payload)@, r@),
        r@ == ints + pair(tag, value),
{
    put_option(payload, Ghost(ints), tag, Some(value))
}

/// Appends `tag, block, tag, tx`, and the same to the integers so far.
fn put_id(payload: &mut Vec<u8>, Ghost(ints): Ghost<Seq<u128>>, tag: Tag, id: RelicId) -> (r: Ghost<Seq<u128>>)
    requires
        encoded(old(payload)@, ints),
    ensures
        encoded(final(payload)@, r@),
        r@ == ints + id_pairs(tag, id),
{
    let vals: Vec<u128> = vec![id.block as u128, id.tx as u128];
    proof {
        assert(vals@ =~= seq![id.block as u128, id.tx as u128]);
    }
    tag.encode(vals.as_slice(), payload);
    proof {
        lemma_encode_all_append(ints, id_pairs(tag, id));
        lemma_all_decode_append(ints, id_pairs(tag, id));
    }
    Ghost(ints + id_pairs(tag, id))
}

/// Appends plain integers, and the same to the integers so far.
fn put_ints(payload: &mut Vec<u8>, Ghost(ints): Ghost<Seq<u128>>, values: &[u128]) -> (r: Ghost<Seq<u128>>)
    requires
        encoded(old(payload)@, ints),
    ensures
        encoded(final(payload)@, r@),
        r@ == ints + values@,
{
    push_varints(payload, values);
    proof {
        lemma_encode_all_append(ints, values@);
        lemma_all_decode_append(ints, values@);
    }
    Ghost(ints + values@)
}

fn opt32(o: Option<u32>) -> (r: Option<u128>)
    ensures
        r == wide32(o),
{
    match o {
        Some(v) => Some(v as u128),
        None => None,
    }
}

fn opt16(o: Option<u16>) -> (r: Option<u128>)
    ensures
        r == wide16(o),
{
    match o {
        Some(v) => Some(v as u128),
        None => None,
    }
}

fn opt8(o: Option<u8>) -> (r: Option<u128>)
    ensures
        r == wide8(o),
{
    match o {
        Some(v) => Some(v as u128),
        None => None,
    }
}

fn opt_char_int(o: Option<char>) -> (r: Option<u128>)
    ensures
        r == wide_char(o),
{
    match o {
        Some(c) => Some((c as u32) as u128),
        None => None,
    }
}

fn encode_boost(payload: &mut Vec<u8>, Ghost(ints): Ghost<Seq<u128>>, boost: &BoostTerms) -> (r: Ghost<Seq<u128>>)
    requires
        encoded(old(payload)@, ints),
    ensures
        encoded(final(payload)@, r@),
        r@ =~= ints + boost_ints(*boost),
{
    let g = put_option(payload, Ghost(ints), Tag::RareChance, opt32(boost.rare_chance));
    let g = put_option(payload, g, Tag::RareMultiplierCap, opt16(boost.rare_multiplier_cap));
    let g = put_option(payload, g, Tag::UltraRareChance, opt32(boost.ultra_rare_chance));
    put_option(payload, g, Tag::UltraRareMultiplierCap, opt16(boost.ultra_rare_multiplier_cap))
}

fn encode_price(payload: &mut Vec<u8>, Ghost(ints): Ghost<Seq<u128>>, price: Option<PriceModel>) -> (r: Ghost<Seq<u128>>)
    requires
        encoded(old(payload)@, ints),
    ensures
        encoded(final(payload)@, r@),
        r@ =~= ints + price_ints(price),
{
    match price {
        Some(PriceModel::Fixed(p)) => put(payload, Ghost(ints), Tag::Price, p),
        Some(PriceModel::Formula { a, b, c }) => {
            let g = put(payload, Ghost(ints), Tag::PriceFormulaA, a);
            let g = put(payload, g, Tag::PriceFormulaB, b);
            put(payload, g, Tag::PriceFormulaC, c)
        },
        None => Ghost(ints),
    }
}

fn encode_terms(payload: &mut Vec<u8>, Ghost(ints): Ghost<Seq<u128>>, terms: &MintTerms) -> (r: Ghost<Seq<u128>>)
    requires
        encoded(old(payload)@, ints),
    ensures
        encoded(final(payload)@, r@),
        r@ =~= ints + terms_ints(*terms),
{
    let g = put_option(payload, Ghost(ints), Tag::Amount, terms.amount);
    let g = put_option(payload, g, Tag::BlockCap, opt32(terms.block_cap));
    let g = put_option(payload, g, Tag::TxCap, opt8(terms.tx_cap));
    let g = put_option(payload, g, Tag::Cap, terms.cap);
    let g = encode_price(payload, g, terms.price);
    let g = put_option(payload, g, Tag::Seed, terms.seed);
    put_option(payload, g, Tag::MaxUnmints, opt32(terms.max_unmints))
}

fn encode_enshrining(payload: &mut Vec<u8>, Ghost(ints): Ghost<Seq<u128>>, e: &Enshrining) -> (r: Ghost<Seq<u128>>)
    requires
        encoded(old(payload)@, ints),
    ensures
        encoded(final(payload)@, r@),
        r@ =~= ints + enshrining_ints(*e),
{
    let g = put_option(payload, Ghost(ints), Tag::Symbol, opt_char_int(e.symbol));
    let g1 = put_option(payload, g, Tag::Fee, opt16(e.fee));
    let g2 = match e.boost_terms {
        Some(boost) => encode_boost(payload, g1, &boost),
        None => g1,
    };
    let g3 = match e.mint_terms {
        Some(terms) => encode_terms(payload, g2, &terms),
        None => g2,
    };
    put_option(payload, g3, Tag::Subsidy, e.subsidy)
}

fn encode_mint(payload: &mut Vec<u8>, Ghost(ints): Ghost<Seq<u128>>, m: &MultiMint) -> (r: Ghost<Seq<u128>>)
    requires
        encoded(old(payload)@, ints),
    ensures
        encoded(final(payload)@, r@),
        r@ =~= ints + mint_ints(*m),
{
    let mut g = Ghost(ints);
    if m.is_unmint {
        g = put(payload, g, Tag::MultiMintIsUnmint, 1);
    }
    g = put(payload, g, Tag::MultiMintCount, m.count as u128);
    g = put(payload, g, Tag::MultiMintBaseLimit, m.base_limit);
    put_id(payload, g, Tag::MultiMintRelic, m.relic)
}

fn encode_swap(payload: &mut Vec<u8>, Ghost(ints): Ghost<Seq<u128>>, s: &Swap) -> (r: Ghost<Seq<u128>>)
    requires
        encoded(old(payload)@, ints),
    ensures
        encoded(final(payload)@, r@),
        r@ =~= ints + swap_ints(*s),
{
    let mut g = Ghost(ints);
    if let Some(id) = s.input {
        g = put_id(payload, g, Tag::SwapInput, id);
    }
    if let Some(id) = s.output {
        g = put_id(payload, g, Tag::SwapOutput, id);
    }
    g = put_option(payload, g, Tag::SwapInputAmount, s.input_amount);
    put_option(payload, g, Tag::SwapOutputAmount, s.output_amount)
}

fn encode_body(payload: &mut Vec<u8>, Ghost(ints): Ghost<Seq<u128>>, transfers: &Vec<Transfer>) -> (r: Ghost<Seq<u128>>)
    requires
        encoded(old(payload)@, ints),
    ensures
        encoded(final(payload)@, r@),
        r@ =~= ints + body_ints(sort_transfers(transfers@)),
{
    let sorted = sort_by_id(transfers);
    proof {
        lemma_sort_transfers_sorted(transfers@);
        assert(sorted@.take(0) =~= Seq::<Transfer>::empty());
    }
    let mut g = Ghost(ints);
    let mut previous = RelicId { block: 0, tx: 0 };
    let mut i: usize = 0;
    while i < sorted.len()
        invariant
            i <= sorted@.len(),
            sorted_by_id(sorted@),
            encoded(payload@, g@),
            g@ == ints + body_ints(sorted@.take(i as int)),
            previous == prev_id(sorted@, i as int),
        decreases sorted@.len() - i,
    {
        let t = sorted[i];
        proof {
            if i > 0 {
                assert(id_le(sorted@[i - 1].id, sorted@[i as int].id));
            }
        }
        let (block, tx) = match previous.delta(t.id) {
            Some(d) => d,
            None => {
                proof {
                    assert(false);
                }
                (0, 0)
            },
        };
        let vals: Vec<u128> = vec![block, tx, t.amount, t.output as u128];
        proof {
            assert(vals@ =~= transfer_ints(prev_id(sorted@, i as int), t));
            let s = sorted@.take(i + 1);
            assert(s.drop_last() =~= sorted@.take(i as int));
            assert(s.last() == t);
            assert(prev_id(s, s.len() - 1) == prev_id(sorted@, i as int));
        }
        g = put_ints(payload, g, vals.as_slice());
        proof {
            assert(g@ =~= ints + body_ints(sorted@.take(i + 1)));
        }
        previous = t.id;
        i = i + 1;
    }
    proof {
        assert(sorted@.take(i as int) =~= sorted@);
    }
    g
}

impl Keepsake {
    /// The payload of the keepsake: its integers as varints.
    pub fn encipher_internal(&self) -> (payload: Vec<u8>)
        ensures
            payload@ == encode_all(spec_keepsake_integers(self@)),
            spec_integers(payload@) == Some(spec_keepsake_integers(self@)),
    {
        let mut payload: Vec<u8> = Vec::new();
        let flags = self.flags();
        proof {
            assert(encode_all(Seq::<u128>::empty()) =~= Seq::<u8>::empty());
        }
        let g0: Ghost<Seq<u128>> = Ghost(Seq::empty());
        let g1 = match self.enshrining {
            Some(enshrining) => encode_enshrining(&mut payload, g0, &enshrining),
            None => g0,
        };
        let g2 = match self.mint {
            Some(multi) => encode_mint(&mut payload, g1, &multi),
            None => g1,
        };
        let g3 = match self.swap {
            Some(swap) => encode_swap(&mut payload, g2, &swap),
            None => g2,
        };
        let g4 = if flags != 0 {
            put(&mut payload, g3, Tag::Flags, flags)
        } else {
            g3
        };
        let g5 = put_option(&mut payload, g4, Tag::Pointer, opt32(self.pointer));
        let g6 = put_option(&mut payload, g5, Tag::Claim, opt32(self.claim));
        let g7 = if self.transfers.len() > 0 {
            let body_tag: Vec<u128> = vec![0];
            proof {
                assert(body_tag@ =~= seq![0u128]);
            }
            let g = put_ints(&mut payload, g6, body_tag.as_slice());
            encode_body(&mut payload, g, &self.transfers)
        } else {
            g6
        };
        proof {
            assert(g7@ =~= spec_keepsake_integers(self@));
            lemma_integers_roundtrip(g7@);
        }
        payload
    }

    /// The flags that the keepsake sets.
    fn flags(&self) -> (flags: u128)
        ensures
            flags == spec_flags(self@),
    {
        let mut flags: u128 = 0;
        if self.sealing {
            Flag::Sealing.set(&mut flags);
        }
        if let Some(enshrining) = self.enshrining {
            Flag::Enshrining.set(&mut flags);
            if enshrining.boost_terms.is_some() {
                Flag::BoostTerms.set(&mut flags);
            }
            if enshrining.mint_terms.is_some() {
                Flag::MintTerms.set(&mut flags);
            }
        }
        if self.mint.is_some() {
            Flag::MultiMint.set(&mut flags);
        }
        if let Some(swap) = self.swap {
            Flag::Swap.set(&mut flags);
            if swap.is_exact_input {
                Flag::SwapExactInput.set(&mut flags);
            }
        }
        flags
    }

    /// The keepsake's output script: `OP_RETURN`, the magic number, then the payload
    /// in data pushes of at most 520 bytes.
    pub fn encipher(&self) -> (script: Vec<u8>)
        ensures
            script_instructions(script@) == seq![
                InstructionView::Op(OP_RETURN),
                InstructionView::Op(MAGIC_NUMBER),
            ] + pushes_of(payload_chunks(encode_all(spec_keepsake_integers(self@)))),
            spec_output_payload(script_instructions(script@)) == Some(
                PayloadView::Valid(encode_all(spec_keepsake_integers(self@))),
            ),
            spec_integers(encode_all(spec_keepsake_integers(self@))) == Some(
                spec_keepsake_integers(self@),
            ),
    {
        let payload = self.encipher_internal();
        let mut script: Vec<u8> = Vec::new();
        push_opcode(&mut script, OP_RETURN);
        push_opcode(&mut script, MAGIC_NUMBER);
        let ghost head = seq![InstructionView::Op(OP_RETURN), InstructionView::Op(MAGIC_NUMBER)];
        let ghost target = head + pushes_of(payload_chunks(payload@));
        proof {
            assert(script_instructions(script@) =~= head);
            assert(payload@.skip(0) =~= payload@);
            assert(script_instructions(script@) + pushes_of(payload_chunks(payload@.skip(0))) =~= target);
            assert(parses_cleanly(script@)) by {
                if script_instructions(script@).contains(InstructionView::Invalid) {
                    let k = choose|k: int| 0 <= k < head.len() && head[k] == InstructionView::Invalid;
                }
            }
            assert(payload@.take(0) =~= Seq::<u8>::empty());
        }
        let mut pos: usize = 0;
        while pos < payload.len()
            invariant
                pos <= payload@.len(),
                parses_cleanly(script@),
                script_instructions(script@).len() >= 2,
                script_instructions(script@)[0] == InstructionView::Op(OP_RETURN),
                script_instructions(script@)[1] == InstructionView::Op(MAGIC_NUMBER),
                spec_pushes(script_instructions(script@), 2, seq![]) == PayloadView::Valid(
                    payload@.take(pos as int),
                ),
                script_instructions(script@) + pushes_of(payload_chunks(payload@.skip(pos as int))) == target,
            decreases payload@.len() - pos,
        {
            let end: usize = if payload.len() - pos > MAX_SCRIPT_ELEMENT_SIZE {
                pos + MAX_SCRIPT_ELEMENT_SIZE
            } else {
                payload.len()
            };
            let chunk = vstd::slice::slice_subrange(payload.as_slice(), pos, end);
            let ghost before = script_instructions(script@);
            push_slice(&mut script, chunk);
            proof {
                let after = script_instructions(script@);
                assert(after == before.push(InstructionView::PushBytes(chunk@)));
                lemma_pushes_push(before, 2, seq![], chunk@);
                assert(payload@.take(pos as int) + chunk@ =~= payload@.take(end as int));
                assert(parses_cleanly(script@)) by {
                    if after.contains(InstructionView::Invalid) {
                        let k = choose|k: int| 0 <= k < after.len() && after[k] == InstructionView::Invalid;
                        if k < before.len() {
                            assert(before[k] == after[k]);
                        }
                    }
                }
                assert(after[0] == before[0]);
                assert(after[1] == before[1]);
                let rest = payload@.skip(pos as int);
                assert(chunk@ =~= rest.take(chunk@.len() as int));
                if rest.len() > MAX_SCRIPT_ELEMENT_SIZE {
                    assert(rest.skip(MAX_SCRIPT_ELEMENT_SIZE as int) =~= payload@.skip(end as int));
                    assert(payload_chunks(rest) == seq![rest.take(MAX_SCRIPT_ELEMENT_SIZE as int)] + payload_chunks(
                        rest.skip(MAX_SCRIPT_ELEMENT_SIZE as int),
                    ));
                } else {
                    assert(chunk@ =~= rest);
                    assert(payload@.skip(end as int) =~= Seq::<u8>::empty());
                    assert(payload_chunks(rest) == seq![rest]);
                }
                assert(pushes_of(payload_chunks(rest)) =~= seq![InstructionView::PushBytes(chunk@)] + pushes_of(
                    payload_chunks(payload@.skip(end as int)),
                ));
                assert(after + pushes_of(payload_chunks(payload@.skip(end as int))) =~= before + pushes_of(
                    payload_chunks(rest),
                ));
            }
            pos = end;
        }
        proof {
            assert(payload@.take(pos as int) =~= payload@);
            assert(payload@.skip(pos as int) =~= Seq::<u8>::empty());
            assert(pushes_of(payload_chunks(payload@.skip(pos as int))) =~= Seq::<InstructionView>::empty());
            assert(script_instructions(script@) =~= target);
        }
        script
    }
}

/// A push appended after instructions that are all pushes from `i` on adds its bytes.
proof fn lemma_pushes_push(instrs: Seq<InstructionView>, i: int, acc: Seq<u8>, b: Seq<u8>)
    requires
        0 <= i <= instrs.len(),
    ensures
        spec_pushes(instrs.push(InstructionView::PushBytes(b)), i, acc) == match spec_pushes(
            instrs,
            i,
            acc,
        ) {
            PayloadView::Valid(p) => PayloadView::Valid(p + b),
            PayloadView::Invalid(f) => PayloadView::Invalid(f),
        },
    decreases instrs.len() - i,
{
    let ext = instrs.push(InstructionView::PushBytes(b));
    if i == instrs.len() {
        assert(spec_pushes(ext, i + 1, acc + b) == PayloadView::Valid(acc + b));
    } else {
        assert(ext[i] == instrs[i]);
        match instrs[i] {
            InstructionView::PushBytes(c) => {
                lemma_pushes_push(instrs, i + 1, acc + c, b);
            },
            _ => {},
        }
    }
}

} // verus!
