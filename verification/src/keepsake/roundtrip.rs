use crate::encode::tag_pairs;
use crate::enshrining::{BoostTerms, Enshrining, MintTerms, MultiMint, PriceModel};
use crate::keepsake::encipher::{
    lemma_sort_transfers_sorted, sort_transfers, spec_keepsake_integers,
    body_ints, boost_ints, enshrining_ints, id_le, id_pairs, mint_ints, opt_pair, pair,
    prev_id, price_ints, sorted_by_id, spec_flags, swap_ints, terms_ints, transfer_ints, wide16,
    wide32, wide8, wide_char,
};
use crate::keepsake::tag::Tag;
use crate::keepsake::flag::Flag;
use crate::encode::encode_all;
use crate::keepsake::{spec_decipher, spec_integers, spec_output_payload, spec_payload, PayloadView};
use crate::script::script_instructions;
use crate::keepsake::{
    spec_decipher_integers, spec_interpret, has_even_key, ArtifactView,
    conv_accepts, opt_char, opt_u16, opt_u32, opt_u8, relic_id_of, spec_decode_boost,
    spec_decode_enshrining, spec_decode_mint_terms, spec_decode_multi_mint, spec_decode_price,
    spec_decode_swap, take_id_spec, take_spec, Conv, KeepsakeView,
};
use crate::keepsake::tag::{consume, peek};
use crate::swap::Swap;
use crate::keepsake::message::{spec_body, spec_message, spec_message_from, MessageView};
use crate::relic_id::{spec_relic_id, RelicId};
use crate::transfer::Transfer;
use crate::keepsake::tag::{push_field, FieldsView};
use vstd::prelude::*;

verus! {

/// Integers that are tag and value pairs, no tag zero.
pub open spec fn pair_form(f: Seq<u128>) -> bool {
    &&& f.len() % 2 == 0
    &&& forall|i: int| 0 <= i < f.len() && i % 2 == 0 ==> #[trigger] f[i] != 0
}

/// The fields after reading the pairs, in order, into `m`.
pub open spec fn fold_fields(m: FieldsView, f: Seq<u128>) -> FieldsView
    decreases f.len(),
{
    if f.len() < 2 {
        m
    } else {
        fold_fields(push_field(m, f[0], f[1]), f.skip(2))
    }
}

/// The values of tag `t` among the pairs, in order.
pub open spec fn vals_of(f: Seq<u128>, t: u128) -> Seq<u128>
    decreases f.len(),
{
    if f.len() < 2 {
        Seq::empty()
    } else {
        (if f[0] == t {
            seq![f[1]]
        } else {
            Seq::empty()
        }) + vals_of(f.skip(2), t)
    }
}

/// The values a map holds for a tag, none where it holds no entry.
pub open spec fn entry_of(m: FieldsView, t: u128) -> Seq<u128> {
    if m.contains_key(t) {
        m[t]
    } else {
        Seq::empty()
    }
}

/// Reading pairs appends each value to its tag's values.
pub proof fn lemma_fold_fields(m: FieldsView, f: Seq<u128>, t: u128)
    requires
        forall|k: u128| #[trigger] m.contains_key(k) ==> m[k].len() > 0,
    ensures
        fold_fields(m, f).contains_key(t) <==> (m.contains_key(t) || vals_of(f, t).len() > 0),
        entry_of(fold_fields(m, f), t) == entry_of(m, t) + vals_of(f, t),
        forall|k: u128| #[trigger] fold_fields(m, f).contains_key(k) ==> fold_fields(m, f)[k].len() > 0,
    decreases f.len(),
{
    if f.len() < 2 {
        assert(entry_of(m, t) + vals_of(f, t) =~= entry_of(m, t));
    } else {
        let m2 = push_field(m, f[0], f[1]);
        assert forall|k: u128| #[trigger] m2.contains_key(k) implies m2[k].len() > 0 by {
            if k == f[0] {
                if m.contains_key(k) {
                    assert(m2[k] == m[k].push(f[1]));
                } else {
                    assert(m2[k] == seq![f[1]]);
                }
            }
        }
        lemma_fold_fields(m2, f.skip(2), t);
        if f[0] == t {
            if m.contains_key(t) {
                assert(entry_of(m2, t) == m[t].push(f[1]));
            } else {
                assert(entry_of(m2, t) == seq![f[1]]);
            }
            assert(entry_of(m2, t) =~= entry_of(m, t) + seq![f[1]]);
        } else {
            assert(entry_of(m2, t) == entry_of(m, t));
        }
        assert(entry_of(m, t) + vals_of(f, t) =~= entry_of(m2, t) + vals_of(f.skip(2), t));
    }
}

/// The values of a tag in two runs of pairs, one after the other.
pub proof fn lemma_vals_of_append(a: Seq<u128>, b: Seq<u128>, t: u128)
    requires
        a.len() % 2 == 0,
    ensures
        vals_of(a + b, t) == vals_of(a, t) + vals_of(b, t),
    decreases a.len(),
{
    if a.len() < 2 {
        assert(a + b =~= b);
        assert(vals_of(a, t) =~= Seq::<u128>::empty());
        assert(vals_of(a + b, t) =~= vals_of(a, t) + vals_of(b, t));
    } else {
        assert((a + b).skip(2) =~= a.skip(2) + b);
        lemma_vals_of_append(a.skip(2), b, t);
        assert((a + b)[0] == a[0] && (a + b)[1] == a[1]);
        assert(vals_of(a + b, t) =~= vals_of(a, t) + vals_of(b, t));
    }
}

pub proof fn lemma_pair_form_append(a: Seq<u128>, b: Seq<u128>)
    requires
        pair_form(a),
        pair_form(b),
    ensures
        pair_form(a + b),
{
    assert forall|i: int| 0 <= i < (a + b).len() && i % 2 == 0 implies #[trigger] (a + b)[i] != 0 by {
        if i < a.len() {
            assert((a + b)[i] == a[i]);
        } else {
            assert((a + b)[i] == b[i - a.len()]);
        }
    }
}

/// `tag, v` pairs for a nonzero tag: pair form, and the values of each tag.
pub proof fn lemma_tag_pairs(tag: u128, values: Seq<u128>, t: u128)
    requires
        tag != 0,
    ensures
        pair_form(tag_pairs(tag, values)),
        tag_pairs(tag, values).len() == 2 * values.len(),
        vals_of(tag_pairs(tag, values), t) == if t == tag {
            values
        } else {
            Seq::empty()
        },
    decreases values.len(),
{
    if values.len() == 0 {
        assert(tag_pairs(tag, values) =~= Seq::<u128>::empty());
        assert(values =~= Seq::<u128>::empty());
    } else {
        let p = tag_pairs(tag, values.drop_last());
        let last = seq![tag, values.last()];
        lemma_tag_pairs(tag, values.drop_last(), t);
        assert(pair_form(last)) by {
            assert forall|i: int| 0 <= i < last.len() && i % 2 == 0 implies #[trigger] last[i] != 0 by {
                assert(i == 0);
            }
        }
        lemma_pair_form_append(p, last);
        lemma_vals_of_append(p, last, t);
        assert(last.skip(2) =~= Seq::<u128>::empty());
        assert(vals_of(last.skip(2), t) =~= Seq::<u128>::empty());
        if t == tag {
            assert(vals_of(last, t) =~= seq![values.last()]);
            assert(values.drop_last().push(values.last()) =~= values);
            assert(values.drop_last() + seq![values.last()] =~= values);
        } else {
            assert(vals_of(last, t) =~= Seq::<u128>::empty());
            assert(vals_of(tag_pairs(tag, values), t) =~= Seq::<u128>::empty());
        }
    }
}

/// Reading a run of pairs from index `i` of the integers gathers their fields and
/// goes on after them.
pub proof fn lemma_message_pairs(n: nat, ints: Seq<u128>, i: int, f: Seq<u128>, m: FieldsView)
    requires
        0 <= i,
        i + f.len() <= ints.len(),
        ints.subrange(i, i + f.len()) == f,
        pair_form(f),
    ensures
        spec_message_from(n, ints, i, m) == spec_message_from(
            n,
            ints,
            i + f.len(),
            fold_fields(m, f),
        ),
    decreases f.len(),
{
    if f.len() >= 2 {
        assert(ints[i] == f[0]);
        assert(ints[i + 1] == f[1]);
        assert(f[0] != 0);
        let rest = f.skip(2);
        assert(pair_form(rest)) by {
            assert forall|j: int| 0 <= j < rest.len() && j % 2 == 0 implies #[trigger] rest[j] != 0 by {
                assert(rest[j] == f[j + 2]);
            }
        }
        assert(ints.subrange(i + 2, i + 2 + rest.len()) =~= rest);
        lemma_message_pairs(n, ints, i + 2, rest, push_field(m, f[0], f[1]));
    }
}

/// A transfer's id that a body can name: not a transaction of block zero.
pub open spec fn valid_id(id: RelicId) -> bool {
    !(id.block == 0 && id.tx > 0)
}

/// Transfers that a body of a transaction with `n` outputs can hold.
pub open spec fn valid_transfers(ts: Seq<Transfer>, n: nat) -> bool {
    forall|i: int| 0 <= i < ts.len() ==> valid_id(#[trigger] ts[i].id) && ts[i].output <= n
}

pub proof fn lemma_body_ints_len(ts: Seq<Transfer>)
    ensures
        body_ints(ts).len() == 4 * ts.len(),
    decreases ts.len(),
{
    if ts.len() > 0 {
        lemma_body_ints_len(ts.drop_last());
    }
}

pub proof fn lemma_body_ints_index(ts: Seq<Transfer>, k: int, m: int)
    requires
        0 <= k < ts.len(),
        0 <= m < 4,
    ensures
        body_ints(ts)[4 * k + m] == transfer_ints(prev_id(ts, k), ts[k])[m],
    decreases ts.len(),
{
    let d = ts.drop_last();
    lemma_body_ints_len(d);
    if k < ts.len() - 1 {
        lemma_body_ints_index(d, k, m);
        assert(d[k] == ts[k]);
        if k > 0 {
            assert(d[k - 1] == ts[k - 1]);
        }
        assert(prev_id(d, k) == prev_id(ts, k));
    }
}

/// The delta of an id from a no later one leads back to it.
pub proof fn lemma_delta_next(prev: RelicId, id: RelicId)
    requires
        id_le(prev, id),
        valid_id(id),
    ensures
        prev.spec_delta(id) is Some,
        prev.spec_next(prev.spec_delta(id).unwrap().0, prev.spec_delta(id).unwrap().1) == Some(id),
{
}

/// Parsing the body of sorted, valid transfers reads them back one by one.
proof fn lemma_body_prefix(n: nat, ints: Seq<u128>, j0: int, ts: Seq<Transfer>, k: nat)
    requires
        0 <= j0 <= ints.len(),
        ints.subrange(j0, ints.len() as int) == body_ints(ts),
        sorted_by_id(ts),
        valid_transfers(ts, n),
        k <= ts.len(),
    ensures
        spec_body(n, ints, j0, RelicId { block: 0, tx: 0 }, seq![]) == spec_body(
            n,
            ints,
            j0 + 4 * k,
            prev_id(ts, k as int),
            ts.take(k as int),
        ),
    decreases k,
{
    lemma_body_ints_len(ts);
    if k == 0 {
        assert(ts.take(0) =~= Seq::<Transfer>::empty());
    } else {
        lemma_body_prefix(n, ints, j0, ts, (k - 1) as nat);
        let i = k - 1;
        let j = j0 + 4 * i;
        let prev = prev_id(ts, i);
        let t = ts[i];
        if i > 0 {
            assert(id_le(ts[i - 1].id, ts[i].id));
        }
        lemma_delta_next(prev, t.id);
        assert forall|m: int| 0 <= m < 4 implies ints[j + m] == #[trigger] transfer_ints(prev, t)[m] by {
            lemma_body_ints_index(ts, i, m);
            assert(ints[j + m] == ints.subrange(j0, ints.len() as int)[4 * i + m]);
        }
        assert(ints[j] == transfer_ints(prev, t)[0]);
        assert(ints[j + 1] == transfer_ints(prev, t)[1]);
        assert(ints[j + 2] == t.amount);
        assert(ints[j + 3] == t.output as u128);
        assert(Transfer::spec_from_integers(n, t.id, t.amount, t.output as u128) == Some(t));
        assert(ts.take(i).push(t) =~= ts.take(k as int));
        assert(prev_id(ts, k as int) == t.id);
    }
}

/// The body of sorted, valid transfers parses back into them.
pub proof fn lemma_body_parse(n: nat, ints: Seq<u128>, j0: int, ts: Seq<Transfer>)
    requires
        0 <= j0 <= ints.len(),
        ints.subrange(j0, ints.len() as int) == body_ints(ts),
        sorted_by_id(ts),
        valid_transfers(ts, n),
    ensures
        spec_body(n, ints, j0, RelicId { block: 0, tx: 0 }, seq![]) == (
            None::<crate::flaw::RelicFlaw>,
            ts,
        ),
{
    lemma_body_ints_len(ts);
    lemma_body_prefix(n, ints, j0, ts, ts.len());
    assert(ts.take(ts.len() as int) =~= ts);
}

/// The value of tag `tv` where `t` is that tag and the value is set.
pub open spec fn sel(tv: u128, v: Option<u128>, t: u128) -> Seq<u128> {
    if t == tv && v is Some {
        seq![v.unwrap()]
    } else {
        Seq::empty()
    }
}

/// The block and transaction of an id under tag `tv`, where `t` is that tag.
pub open spec fn sel_id(tv: u128, id: RelicId, t: u128) -> Seq<u128> {
    if t == tv {
        seq![id.block as u128, id.tx as u128]
    } else {
        Seq::empty()
    }
}

proof fn lemma_cat(a: Seq<u128>, b: Seq<u128>, t: u128)
    requires
        pair_form(a),
        pair_form(b),
    ensures
        pair_form(a + b),
        vals_of(a + b, t) == vals_of(a, t) + vals_of(b, t),
{
    lemma_pair_form_append(a, b);
    lemma_vals_of_append(a, b, t);
}

proof fn lemma_empty_pairs(t: u128)
    ensures
        pair_form(Seq::<u128>::empty()),
        vals_of(Seq::<u128>::empty(), t) == Seq::<u128>::empty(),
{
}

proof fn lemma_opt_pair(tag: Tag, v: Option<u128>, t: u128)
    requires
        tag.value() != 0,
    ensures
        pair_form(opt_pair(tag, v)),
        vals_of(opt_pair(tag, v), t) == sel(tag.value(), v, t),
{
    match v {
        Some(x) => {
            lemma_tag_pairs(tag.value(), seq![x], t);
        },
        None => {
            lemma_empty_pairs(t);
        },
    }
}

proof fn lemma_id_pairs(tag: Tag, id: RelicId, t: u128)
    requires
        tag.value() != 0,
    ensures
        pair_form(id_pairs(tag, id)),
        vals_of(id_pairs(tag, id), t) == sel_id(tag.value(), id, t),
{
    lemma_tag_pairs(tag.value(), seq![id.block as u128, id.tx as u128], t);
}

pub open spec fn boost_vals(b: BoostTerms, t: u128) -> Seq<u128> {
    sel(32, wide32(b.rare_chance), t) + sel(34, wide16(b.rare_multiplier_cap), t) + sel(
        36,
        wide32(b.ultra_rare_chance),
        t,
    ) + sel(38, wide16(b.ultra_rare_multiplier_cap), t)
}

proof fn lemma_boost_vals(b: BoostTerms, t: u128)
    ensures
        pair_form(boost_ints(b)),
        vals_of(boost_ints(b), t) == boost_vals(b, t),
{
    lemma_opt_pair(Tag::RareChance, wide32(b.rare_chance), t);
    lemma_opt_pair(Tag::RareMultiplierCap, wide16(b.rare_multiplier_cap), t);
    lemma_opt_pair(Tag::UltraRareChance, wide32(b.ultra_rare_chance), t);
    lemma_opt_pair(Tag::UltraRareMultiplierCap, wide16(b.ultra_rare_multiplier_cap), t);
    let a1 = opt_pair(Tag::RareChance, wide32(b.rare_chance));
    let a2 = opt_pair(Tag::RareMultiplierCap, wide16(b.rare_multiplier_cap));
    let a3 = opt_pair(Tag::UltraRareChance, wide32(b.ultra_rare_chance));
    let a4 = opt_pair(Tag::UltraRareMultiplierCap, wide16(b.ultra_rare_multiplier_cap));
    lemma_cat(a1, a2, t);
    lemma_cat(a1 + a2, a3, t);
    lemma_cat(a1 + a2 + a3, a4, t);
}

pub open spec fn price_vals(p: Option<PriceModel>, t: u128) -> Seq<u128> {
    match p {
        Some(PriceModel::Fixed(x)) => sel(14, Some(x), t),
        Some(PriceModel::Formula { a, b, c }) => sel(16, Some(a), t) + sel(18, Some(b), t) + sel(
            20,
            Some(c),
            t,
        ),
        None => Seq::empty(),
    }
}

proof fn lemma_price_vals(p: Option<PriceModel>, t: u128)
    ensures
        pair_form(price_ints(p)),
        vals_of(price_ints(p), t) == price_vals(p, t),
{
    match p {
        Some(PriceModel::Fixed(x)) => {
            lemma_opt_pair(Tag::Price, Some(x), t);
        },
        Some(PriceModel::Formula { a, b, c }) => {
            lemma_opt_pair(Tag::PriceFormulaA, Some(a), t);
            lemma_opt_pair(Tag::PriceFormulaB, Some(b), t);
            lemma_opt_pair(Tag::PriceFormulaC, Some(c), t);
            let a1 = pair(Tag::PriceFormulaA, a);
            let a2 = pair(Tag::PriceFormulaB, b);
            let a3 = pair(Tag::PriceFormulaC, c);
            lemma_cat(a1, a2, t);
            lemma_cat(a1 + a2, a3, t);
        },
        None => {
            lemma_empty_pairs(t);
        },
    }
}

pub open spec fn terms_vals(m: MintTerms, t: u128) -> Seq<u128> {
    sel(10, m.amount, t) + sel(26, wide32(m.block_cap), t) + sel(28, wide8(m.tx_cap), t) + sel(
        12,
        m.cap,
        t,
    ) + price_vals(m.price, t) + sel(8, m.seed, t) + sel(24, wide32(m.max_unmints), t)
}

proof fn lemma_terms_vals(m: MintTerms, t: u128)
    ensures
        pair_form(terms_ints(m)),
        vals_of(terms_ints(m), t) == terms_vals(m, t),
{
    let a1 = opt_pair(Tag::Amount, m.amount);
    let a2 = opt_pair(Tag::BlockCap, wide32(m.block_cap));
    let a3 = opt_pair(Tag::TxCap, wide8(m.tx_cap));
    let a4 = opt_pair(Tag::Cap, m.cap);
    let a5 = price_ints(m.price);
    let a6 = opt_pair(Tag::Seed, m.seed);
    let a7 = opt_pair(Tag::MaxUnmints, wide32(m.max_unmints));
    lemma_opt_pair(Tag::Amount, m.amount, t);
    lemma_opt_pair(Tag::BlockCap, wide32(m.block_cap), t);
    lemma_opt_pair(Tag::TxCap, wide8(m.tx_cap), t);
    lemma_opt_pair(Tag::Cap, m.cap, t);
    lemma_price_vals(m.price, t);
    lemma_opt_pair(Tag::Seed, m.seed, t);
    lemma_opt_pair(Tag::MaxUnmints, wide32(m.max_unmints), t);
    lemma_cat(a1, a2, t);
    lemma_cat(a1 + a2, a3, t);
    lemma_cat(a1 + a2 + a3, a4, t);
    lemma_cat(a1 + a2 + a3 + a4, a5, t);
    lemma_cat(a1 + a2 + a3 + a4 + a5, a6, t);
    lemma_cat(a1 + a2 + a3 + a4 + a5 + a6, a7, t);
}

pub open spec fn enshrining_vals(e: Enshrining, t: u128) -> Seq<u128> {
    sel(5, wide_char(e.symbol), t) + sel(30, wide16(e.fee), t) + (match e.boost_terms {
        Some(b) => boost_vals(b, t),
        None => Seq::empty(),
    }) + (match e.mint_terms {
        Some(m) => terms_vals(m, t),
        None => Seq::empty(),
    }) + sel(98, e.subsidy, t)
}

proof fn lemma_enshrining_vals(e: Enshrining, t: u128)
    ensures
        pair_form(enshrining_ints(e)),
        vals_of(enshrining_ints(e), t) == enshrining_vals(e, t),
{
    let a1 = opt_pair(Tag::Symbol, wide_char(e.symbol));
    let a2 = opt_pair(Tag::Fee, wide16(e.fee));
    let a3: Seq<u128> = match e.boost_terms {
        Some(b) => boost_ints(b),
        None => Seq::empty(),
    };
    let a4: Seq<u128> = match e.mint_terms {
        Some(m) => terms_ints(m),
        None => Seq::empty(),
    };
    let a5 = opt_pair(Tag::Subsidy, e.subsidy);
    lemma_opt_pair(Tag::Symbol, wide_char(e.symbol), t);
    lemma_opt_pair(Tag::Fee, wide16(e.fee), t);
    match e.boost_terms {
        Some(b) => lemma_boost_vals(b, t),
        None => lemma_empty_pairs(t),
    }
    match e.mint_terms {
        Some(m) => lemma_terms_vals(m, t),
        None => lemma_empty_pairs(t),
    }
    lemma_opt_pair(Tag::Subsidy, e.subsidy, t);
    lemma_cat(a1, a2, t);
    lemma_cat(a1 + a2, a3, t);
    lemma_cat(a1 + a2 + a3, a4, t);
    lemma_cat(a1 + a2 + a3 + a4, a5, t);
}

pub open spec fn mint_vals(m: MultiMint, t: u128) -> Seq<u128> {
    (if m.is_unmint {
        sel(86, Some(1), t)
    } else {
        Seq::empty()
    }) + sel(80, Some(m.count as u128), t) + sel(82, Some(m.base_limit), t) + sel_id(84, m.relic, t)
}

proof fn lemma_mint_vals(m: MultiMint, t: u128)
    ensures
        pair_form(mint_ints(m)),
        vals_of(mint_ints(m), t) == mint_vals(m, t),
{
    let a1: Seq<u128> = if m.is_unmint {
        pair(Tag::MultiMintIsUnmint, 1)
    } else {
        Seq::empty()
    };
    let a2 = pair(Tag::MultiMintCount, m.count as u128);
    let a3 = pair(Tag::MultiMintBaseLimit, m.base_limit);
    let a4 = id_pairs(Tag::MultiMintRelic, m.relic);
    if m.is_unmint {
        lemma_opt_pair(Tag::MultiMintIsUnmint, Some(1), t);
    } else {
        lemma_empty_pairs(t);
    }
    lemma_opt_pair(Tag::MultiMintCount, Some(m.count as u128), t);
    lemma_opt_pair(Tag::MultiMintBaseLimit, Some(m.base_limit), t);
    lemma_id_pairs(Tag::MultiMintRelic, m.relic, t);
    lemma_cat(a1, a2, t);
    lemma_cat(a1 + a2, a3, t);
    lemma_cat(a1 + a2 + a3, a4, t);
}

pub open spec fn swap_vals(s: Swap, t: u128) -> Seq<u128> {
    (match s.input {
        Some(id) => sel_id(90, id, t),
        None => Seq::empty(),
    }) + (match s.output {
        Some(id) => sel_id(92, id, t),
        None => Seq::empty(),
    }) + sel(94, s.input_amount, t) + sel(96, s.output_amount, t)
}

proof fn lemma_swap_vals(s: Swap, t: u128)
    ensures
        pair_form(swap_ints(s)),
        vals_of(swap_ints(s), t) == swap_vals(s, t),
{
    let a1: Seq<u128> = match s.input {
        Some(id) => id_pairs(Tag::SwapInput, id),
        None => Seq::empty(),
    };
    let a2: Seq<u128> = match s.output {
        Some(id) => id_pairs(Tag::SwapOutput, id),
        None => Seq::empty(),
    };
    let a3 = opt_pair(Tag::SwapInputAmount, s.input_amount);
    let a4 = opt_pair(Tag::SwapOutputAmount, s.output_amount);
    match s.input {
        Some(id) => lemma_id_pairs(Tag::SwapInput, id, t),
        None => lemma_empty_pairs(t),
    }
    match s.output {
        Some(id) => lemma_id_pairs(Tag::SwapOutput, id, t),
        None => lemma_empty_pairs(t),
    }
    lemma_opt_pair(Tag::SwapInputAmount, s.input_amount, t);
    lemma_opt_pair(Tag::SwapOutputAmount, s.output_amount, t);
    lemma_cat(a1, a2, t);
    lemma_cat(a1 + a2, a3, t);
    lemma_cat(a1 + a2 + a3, a4, t);
}

/// The integers of a keepsake before its body.
pub open spec fn fields_ints(k: KeepsakeView) -> Seq<u128> {
    let flags = spec_flags(k);
    (match k.enshrining {
        Some(e) => enshrining_ints(e),
        None => Seq::empty(),
    }) + (match k.mint {
        Some(m) => mint_ints(m),
        None => Seq::empty(),
    }) + (match k.swap {
        Some(s) => swap_ints(s),
        None => Seq::empty(),
    }) + (if flags != 0 {
        pair(Tag::Flags, flags)
    } else {
        Seq::empty()
    }) + opt_pair(Tag::Pointer, wide32(k.pointer)) + opt_pair(Tag::Claim, wide32(k.claim))
}

/// The values of each tag among a keepsake's fields.
pub open spec fn keepsake_vals(k: KeepsakeView, t: u128) -> Seq<u128> {
    let flags = spec_flags(k);
    (match k.enshrining {
        Some(e) => enshrining_vals(e, t),
        None => Seq::empty(),
    }) + (match k.mint {
        Some(m) => mint_vals(m, t),
        None => Seq::empty(),
    }) + (match k.swap {
        Some(s) => swap_vals(s, t),
        None => Seq::empty(),
    }) + (if flags != 0 {
        sel(2, Some(flags), t)
    } else {
        Seq::empty()
    }) + sel(4, wide32(k.pointer), t) + sel(6, wide32(k.claim), t)
}

pub proof fn lemma_keepsake_vals(k: KeepsakeView, t: u128)
    ensures
        pair_form(fields_ints(k)),
        vals_of(fields_ints(k), t) == keepsake_vals(k, t),
{
    let flags = spec_flags(k);
    let a1: Seq<u128> = match k.enshrining {
        Some(e) => enshrining_ints(e),
        None => Seq::empty(),
    };
    let a2: Seq<u128> = match k.mint {
        Some(m) => mint_ints(m),
        None => Seq::empty(),
    };
    let a3: Seq<u128> = match k.swap {
        Some(s) => swap_ints(s),
        None => Seq::empty(),
    };
    let a4: Seq<u128> = if flags != 0 {
        pair(Tag::Flags, flags)
    } else {
        Seq::empty()
    };
    let a5 = opt_pair(Tag::Pointer, wide32(k.pointer));
    let a6 = opt_pair(Tag::Claim, wide32(k.claim));
    match k.enshrining {
        Some(e) => lemma_enshrining_vals(e, t),
        None => lemma_empty_pairs(t),
    }
    match k.mint {
        Some(m) => lemma_mint_vals(m, t),
        None => lemma_empty_pairs(t),
    }
    match k.swap {
        Some(s) => lemma_swap_vals(s, t),
        None => lemma_empty_pairs(t),
    }
    if flags != 0 {
        lemma_opt_pair(Tag::Flags, Some(flags), t);
    } else {
        lemma_empty_pairs(t);
    }
    lemma_opt_pair(Tag::Pointer, wide32(k.pointer), t);
    lemma_opt_pair(Tag::Claim, wide32(k.claim), t);
    lemma_cat(a1, a2, t);
    lemma_cat(a1 + a2, a3, t);
    lemma_cat(a1 + a2 + a3, a4, t);
    lemma_cat(a1 + a2 + a3 + a4, a5, t);
    lemma_cat(a1 + a2 + a3 + a4 + a5, a6, t);
}

/// The value of an optional field as a list of at most one value.
pub open spec fn ov(v: Option<u128>) -> Seq<u128> {
    match v {
        Some(x) => seq![x],
        None => Seq::empty(),
    }
}

pub open spec fn price_fixed(p: Option<PriceModel>) -> Option<u128> {
    match p {
        Some(PriceModel::Fixed(x)) => Some(x),
        _ => None,
    }
}

pub open spec fn price_a(p: Option<PriceModel>) -> Option<u128> {
    match p {
        Some(PriceModel::Formula { a, b, c }) => Some(a),
        _ => None,
    }
}

pub open spec fn price_b(p: Option<PriceModel>) -> Option<u128> {
    match p {
        Some(PriceModel::Formula { a, b, c }) => Some(b),
        _ => None,
    }
}

pub open spec fn price_c(p: Option<PriceModel>) -> Option<u128> {
    match p {
        Some(PriceModel::Formula { a, b, c }) => Some(c),
        _ => None,
    }
}

/// The values of each tag among a keepsake's fields, tag by tag.
#[verifier::opaque]
pub open spec fn expected_vals(k: KeepsakeView, t: u128) -> Seq<u128> {
    let flags = spec_flags(k);
    let has_e = k.enshrining is Some;
    let e = k.enshrining.unwrap();
    let has_b = has_e && e.boost_terms is Some;
    let b = e.boost_terms.unwrap();
    let has_t = has_e && e.mint_terms is Some;
    let tm = e.mint_terms.unwrap();
    let has_m = k.mint is Some;
    let m = k.mint.unwrap();
    let has_s = k.swap is Some;
    let s = k.swap.unwrap();
    if t == 2 {
        if flags != 0 { seq![flags] } else { Seq::empty() }
    } else if t == 4 {
        ov(wide32(k.pointer))
    } else if t == 6 {
        ov(wide32(k.claim))
    } else if t == 5 {
        if has_e { ov(wide_char(e.symbol)) } else { Seq::empty() }
    } else if t == 30 {
        if has_e { ov(wide16(e.fee)) } else { Seq::empty() }
    } else if t == 98 {
        if has_e { ov(e.subsidy) } else { Seq::empty() }
    } else if t == 32 {
        if has_b { ov(wide32(b.rare_chance)) } else { Seq::empty() }
    } else if t == 34 {
        if has_b { ov(wide16(b.rare_multiplier_cap)) } else { Seq::empty() }
    } else if t == 36 {
        if has_b { ov(wide32(b.ultra_rare_chance)) } else { Seq::empty() }
    } else if t == 38 {
        if has_b { ov(wide16(b.ultra_rare_multiplier_cap)) } else { Seq::empty() }
    } else if t == 10 {
        if has_t { ov(tm.amount) } else { Seq::empty() }
    } else if t == 26 {
        if has_t { ov(wide32(tm.block_cap)) } else { Seq::empty() }
    } else if t == 28 {
        if has_t { ov(wide8(tm.tx_cap)) } else { Seq::empty() }
    } else if t == 12 {
        if has_t { ov(tm.cap) } else { Seq::empty() }
    } else if t == 8 {
        if has_t { ov(tm.seed) } else { Seq::empty() }
    } else if t == 24 {
        if has_t { ov(wide32(tm.max_unmints)) } else { Seq::empty() }
    } else if t == 14 {
        if has_t { ov(price_fixed(tm.price)) } else { Seq::empty() }
    } else if t == 16 {
        if has_t { ov(price_a(tm.price)) } else { Seq::empty() }
    } else if t == 18 {
        if has_t { ov(price_b(tm.price)) } else { Seq::empty() }
    } else if t == 20 {
        if has_t { ov(price_c(tm.price)) } else { Seq::empty() }
    } else if t == 86 {
        if has_m && m.is_unmint { seq![1u128] } else { Seq::empty() }
    } else if t == 80 {
        if has_m { seq![m.count as u128] } else { Seq::empty() }
    } else if t == 82 {
        if has_m { seq![m.base_limit] } else { Seq::empty() }
    } else if t == 84 {
        if has_m { seq![m.relic.block as u128, m.relic.tx as u128] } else { Seq::empty() }
    } else if t == 90 {
        if has_s && s.input is Some {
            seq![s.input.unwrap().block as u128, s.input.unwrap().tx as u128]
        } else {
            Seq::empty()
        }
    } else if t == 92 {
        if has_s && s.output is Some {
            seq![s.output.unwrap().block as u128, s.output.unwrap().tx as u128]
        } else {
            Seq::empty()
        }
    } else if t == 94 {
        if has_s { ov(s.input_amount) } else { Seq::empty() }
    } else if t == 96 {
        if has_s { ov(s.output_amount) } else { Seq::empty() }
    } else {
        Seq::empty()
    }
}

proof fn lemma_expected_boost(b: BoostTerms, t: u128)
    ensures
        boost_vals(b, t) =~= (if t == 32 {
            ov(wide32(b.rare_chance))
        } else if t == 34 {
            ov(wide16(b.rare_multiplier_cap))
        } else if t == 36 {
            ov(wide32(b.ultra_rare_chance))
        } else if t == 38 {
            ov(wide16(b.ultra_rare_multiplier_cap))
        } else {
            Seq::empty()
        }),
{
}

proof fn lemma_expected_price(p: Option<PriceModel>, t: u128)
    ensures
        price_vals(p, t) =~= (if t == 14 {
            ov(price_fixed(p))
        } else if t == 16 {
            ov(price_a(p))
        } else if t == 18 {
            ov(price_b(p))
        } else if t == 20 {
            ov(price_c(p))
        } else {
            Seq::empty()
        }),
{
}

proof fn lemma_expected_terms(m: MintTerms, t: u128)
    ensures
        terms_vals(m, t) =~= (if t == 10 {
            ov(m.amount)
        } else if t == 26 {
            ov(wide32(m.block_cap))
        } else if t == 28 {
            ov(wide8(m.tx_cap))
        } else if t == 12 {
            ov(m.cap)
        } else if t == 8 {
            ov(m.seed)
        } else if t == 24 {
            ov(wide32(m.max_unmints))
        } else {
            price_vals(m.price, t)
        }),
{
    lemma_expected_price(m.price, t);
}

proof fn lemma_expected_enshrining(e: Enshrining, t: u128)
    ensures
        enshrining_vals(e, t) =~= (if t == 5 {
            ov(wide_char(e.symbol))
        } else if t == 30 {
            ov(wide16(e.fee))
        } else if t == 98 {
            ov(e.subsidy)
        } else {
            (match e.boost_terms {
                Some(b) => boost_vals(b, t),
                None => Seq::empty(),
            }) + (match e.mint_terms {
                Some(m) => terms_vals(m, t),
                None => Seq::empty(),
            })
        }),
{
    match e.boost_terms {
        Some(b) => lemma_expected_boost(b, t),
        None => {},
    }
    match e.mint_terms {
        Some(m) => lemma_expected_terms(m, t),
        None => {},
    }
}

/// Tag by tag, the values among a keepsake's fields.
pub proof fn lemma_expected_vals(k: KeepsakeView, t: u128)
    ensures
        keepsake_vals(k, t) == expected_vals(k, t),
{
    reveal(expected_vals);    if let Some(e) = k.enshrining {
        lemma_expected_enshrining(e, t);
        if let Some(b) = e.boost_terms {
            lemma_expected_boost(b, t);
        }
        if let Some(m) = e.mint_terms {
            lemma_expected_terms(m, t);
            lemma_expected_price(m.price, t);
        }
    }
    assert(keepsake_vals(k, t) =~= expected_vals(k, t));
}

/// The map holds, for every tag not yet taken, the keepsake's values of that tag, and
/// nothing else.
#[verifier::opaque]
pub open spec fn agrees(m: FieldsView, k: KeepsakeView, taken: Set<u128>) -> bool {
    forall|t: u128|
        (#[trigger] m.contains_key(t) <==> (expected_vals(k, t).len() > 0 && !taken.contains(t)))
            && (m.contains_key(t) ==> m[t] == expected_vals(k, t))
}

/// Taking a tag that holds at most one value gives that value and drops the tag.
proof fn lemma_take(m: FieldsView, k: KeepsakeView, taken: Set<u128>, t: u128, conv: Conv)
    requires
        agrees(m, k, taken),
        !taken.contains(t),
        expected_vals(k, t).len() <= 1,
        expected_vals(k, t).len() == 1 ==> conv_accepts(conv, expected_vals(k, t)[0]),
    ensures
        take_spec(m, t, conv).1 == (if expected_vals(k, t).len() == 1 {
            Some(expected_vals(k, t)[0])
        } else {
            None
        }),
        agrees(take_spec(m, t, conv).0, k, taken.insert(t)),
{
    reveal(agrees);    let r = take_spec(m, t, conv);
    if expected_vals(k, t).len() == 1 {
        assert(m.contains_key(t));
        assert(peek(m, t, 1) == Some(m[t].take(1)));
        assert(m[t].skip(1).len() == 0);
        assert(consume(m, t, 1) == m.remove(t));
    } else {
        assert(!m.contains_key(t));
    }
    assert forall|x: u128|
        (#[trigger] r.0.contains_key(x) <==> (expected_vals(k, x).len() > 0 && !taken.insert(
            t,
        ).contains(x))) && (r.0.contains_key(x) ==> r.0[x] == expected_vals(k, x)) by {
        assert(m.contains_key(x) <==> (expected_vals(k, x).len() > 0 && !taken.contains(x)));
    }
}

/// Taking an id tag that holds a block and a transaction gives the id and drops the
/// tag.
proof fn lemma_take_id(m: FieldsView, k: KeepsakeView, taken: Set<u128>, t: u128)
    requires
        agrees(m, k, taken),
        !taken.contains(t),
        expected_vals(k, t).len() == 0 || expected_vals(k, t).len() == 2,
        expected_vals(k, t).len() == 2 ==> relic_id_of(expected_vals(k, t)[0], expected_vals(k, t)[1])
            is Some,
    ensures
        take_id_spec(m, t).1 == (if expected_vals(k, t).len() == 2 {
            relic_id_of(expected_vals(k, t)[0], expected_vals(k, t)[1])
        } else {
            None
        }),
        agrees(take_id_spec(m, t).0, k, taken.insert(t)),
{
    reveal(agrees);    let r = take_id_spec(m, t);
    if expected_vals(k, t).len() == 2 {
        assert(m.contains_key(t));
        assert(m[t].take(2) =~= m[t]);
        assert(m[t].skip(2).len() == 0);
        assert(consume(m, t, 2) == m.remove(t));
    } else {
        assert(!m.contains_key(t));
    }
    assert forall|x: u128|
        (#[trigger] r.0.contains_key(x) <==> (expected_vals(k, x).len() > 0 && !taken.insert(
            t,
        ).contains(x))) && (r.0.contains_key(x) ==> r.0[x] == expected_vals(k, x)) by {
        assert(m.contains_key(x) <==> (expected_vals(k, x).len() > 0 && !taken.contains(x)));
    }
}

proof fn lemma_masks()
    ensures
        Flag::Sealing.spec_mask() == 2,
        Flag::Enshrining.spec_mask() == 4,
        Flag::MintTerms.spec_mask() == 8,
        Flag::Swap.spec_mask() == 16,
        Flag::SwapExactInput.spec_mask() == 32,
        Flag::MultiMint.spec_mask() == 64,
        Flag::BoostTerms.spec_mask() == 128,
{
    assert(1u128 << 1u32 == 2) by (bit_vector);
    assert(1u128 << 2u32 == 4) by (bit_vector);
    assert(1u128 << 3u32 == 8) by (bit_vector);
    assert(1u128 << 4u32 == 16) by (bit_vector);
    assert(1u128 << 5u32 == 32) by (bit_vector);
    assert(1u128 << 6u32 == 64) by (bit_vector);
    assert(1u128 << 7u32 == 128) by (bit_vector);
}

/// The flags of a keepsake, read back in the order of the protocol, give each flag
/// and leave nothing.
proof fn lemma_flag_bits(s: bool, e: bool, b: bool, t: bool, m: bool, w: bool, x: bool, f: u128)
    requires
        b ==> e,
        t ==> e,
        x ==> w,
        f == {
            let f1: u128 = if s { 0u128 | 2u128 } else { 0u128 };
            let f2: u128 = if e { f1 | 4u128 } else { f1 };
            let f3: u128 = if b { f2 | 128u128 } else { f2 };
            let f4: u128 = if t { f3 | 8u128 } else { f3 };
            let f5: u128 = if m { f4 | 64u128 } else { f4 };
            let f6: u128 = if w { f5 | 16u128 } else { f5 };
            if x { f6 | 32u128 } else { f6 }
        },
    ensures
        (f & 2u128 != 0) == s,
        (f & !2u128) & 4u128 != 0 == e,
        ((f & !2u128) & !4u128) & 128u128 != 0 == b,
        (((f & !2u128) & !4u128) & !128u128) & 8u128 != 0 == t,
        ({
            let f3: u128 = if e { (((f & !2u128) & !4u128) & !128u128) & !8u128 } else { (f & !2u128) & !4u128 };
            &&& f3 & 64u128 != 0 == m
            &&& (f3 & !64u128) & 16u128 != 0 == w
            &&& ((f3 & !64u128) & !16u128) & 32u128 != 0 == x
            &&& (if w { ((f3 & !64u128) & !16u128) & !32u128 } else { (f3 & !64u128) & !16u128 }) == 0
        }),
{
    assert(
        (b ==> e) && (t ==> e) && (x ==> w) && f == {
            let f1: u128 = if s { 0u128 | 2u128 } else { 0u128 };
            let f2: u128 = if e { f1 | 4u128 } else { f1 };
            let f3: u128 = if b { f2 | 128u128 } else { f2 };
            let f4: u128 = if t { f3 | 8u128 } else { f3 };
            let f5: u128 = if m { f4 | 64u128 } else { f4 };
            let f6: u128 = if w { f5 | 16u128 } else { f5 };
            if x { f6 | 32u128 } else { f6 }
        } ==> {
            &&& (f & 2u128 != 0) == s
            &&& (f & !2u128) & 4u128 != 0 == e
            &&& ((f & !2u128) & !4u128) & 128u128 != 0 == b
            &&& (((f & !2u128) & !4u128) & !128u128) & 8u128 != 0 == t
            &&& {
                let f3: u128 = if e { (((f & !2u128) & !4u128) & !128u128) & !8u128 } else { (f & !2u128) & !4u128 };
                &&& f3 & 64u128 != 0 == m
                &&& (f3 & !64u128) & 16u128 != 0 == w
                &&& ((f3 & !64u128) & !16u128) & 32u128 != 0 == x
                &&& (if w { ((f3 & !64u128) & !16u128) & !32u128 } else { (f3 & !64u128) & !16u128 }) == 0
            }
        }
    ) by (bit_vector);
}

/// Tags all of whose values are gone: none of the keepsake's values is left for them.
proof fn lemma_skip(m: FieldsView, k: KeepsakeView, taken: Set<u128>, tags: Set<u128>)
    requires
        agrees(m, k, taken),
        forall|t: u128| #[trigger] tags.contains(t) ==> expected_vals(k, t).len() == 0,
    ensures
        agrees(m, k, taken.union(tags)),
{
    reveal(agrees);    assert forall|x: u128|
        (#[trigger] m.contains_key(x) <==> (expected_vals(k, x).len() > 0 && !taken.union(
            tags,
        ).contains(x))) && (m.contains_key(x) ==> m[x] == expected_vals(k, x)) by {
        assert(m.contains_key(x) <==> (expected_vals(k, x).len() > 0 && !taken.contains(x)));
    }
}

pub open spec fn boost_tags() -> Set<u128> {
    set![32u128, 34, 36, 38]
}

pub open spec fn terms_tags() -> Set<u128> {
    set![10u128, 26, 12, 28, 24, 14, 16, 18, 20, 8]
}

pub open spec fn enshrining_tags() -> Set<u128> {
    boost_tags().union(terms_tags()).union(set![30u128, 5, 98])
}

pub open spec fn mint_tags() -> Set<u128> {
    set![86u128, 80, 82, 84]
}

pub open spec fn swap_tags() -> Set<u128> {
    set![90u128, 92, 94, 96]
}

/// A char's scalar value is a valid scalar value and names the char again.
proof fn lemma_char_roundtrip(c: char)
    ensures
        conv_accepts(Conv::Char, (c as u32) as u128),
        opt_char(Some((c as u32) as u128)) == Some(c),
{
}

proof fn lemma_decode_boost(m: FieldsView, k: KeepsakeView, taken: Set<u128>, b: BoostTerms)
    requires
        agrees(m, k, taken),
        k.enshrining is Some,
        k.enshrining.unwrap().boost_terms == Some(b),
        taken.disjoint(boost_tags()),
    ensures
        spec_decode_boost(m).1 == b,
        agrees(spec_decode_boost(m).0, k, taken.union(boost_tags())),
{
    reveal(expected_vals);    let (f1, rc) = take_spec(m, 32, Conv::U32);
    lemma_take(m, k, taken, 32, Conv::U32);
    let (f2, rm) = take_spec(f1, 34, Conv::U16);
    lemma_take(f1, k, taken.insert(32), 34, Conv::U16);
    let (f3, urc) = take_spec(f2, 36, Conv::U32);
    lemma_take(f2, k, taken.insert(32).insert(34), 36, Conv::U32);
    let (f4, urm) = take_spec(f3, 38, Conv::U16);
    lemma_take(f3, k, taken.insert(32).insert(34).insert(36), 38, Conv::U16);
    assert(taken.insert(32).insert(34).insert(36).insert(38) =~= taken.union(boost_tags()));
}

proof fn lemma_decode_price(m: FieldsView, k: KeepsakeView, taken: Set<u128>, t: MintTerms)
    requires
        agrees(m, k, taken),
        k.enshrining is Some,
        k.enshrining.unwrap().mint_terms == Some(t),
        taken.disjoint(set![14u128, 16, 18, 20]),
    ensures
        spec_decode_price(m).1 == t.price,
        agrees(spec_decode_price(m).0, k, taken.union(set![14u128, 16, 18, 20])),
{
    reveal(expected_vals);    let (f1, p) = take_spec(m, 14, Conv::Any);
    lemma_take(m, k, taken, 14, Conv::Any);
    let t1 = taken.insert(14);
    match t.price {
        Some(PriceModel::Fixed(x)) => {
            lemma_skip(f1, k, t1, set![16u128, 18, 20]);
            assert(t1.union(set![16u128, 18, 20]) =~= taken.union(set![14u128, 16, 18, 20]));
        },
        _ => {
            let (f2, a) = take_spec(f1, 16, Conv::Any);
            lemma_take(f1, k, t1, 16, Conv::Any);
            let (f3, b) = take_spec(f2, 18, Conv::Any);
            lemma_take(f2, k, t1.insert(16), 18, Conv::Any);
            let (f4, c) = take_spec(f3, 20, Conv::Any);
            lemma_take(f3, k, t1.insert(16).insert(18), 20, Conv::Any);
            assert(t1.insert(16).insert(18).insert(20) =~= taken.union(set![14u128, 16, 18, 20]));
        },
    }
}

proof fn lemma_decode_terms(m: FieldsView, k: KeepsakeView, taken: Set<u128>, t: MintTerms)
    requires
        agrees(m, k, taken),
        k.enshrining is Some,
        k.enshrining.unwrap().mint_terms == Some(t),
        t.seed != Some(0u128),
        taken.disjoint(terms_tags()),
    ensures
        spec_decode_mint_terms(m).1 == t,
        agrees(spec_decode_mint_terms(m).0, k, taken.union(terms_tags())),
{
    reveal(expected_vals);    let (f1, amount) = take_spec(m, 10, Conv::Any);
    lemma_take(m, k, taken, 10, Conv::Any);
    let t1 = taken.insert(10);
    let (f2, block_cap) = take_spec(f1, 26, Conv::U32);
    lemma_take(f1, k, t1, 26, Conv::U32);
    let t2 = t1.insert(26);
    let (f3, cap) = take_spec(f2, 12, Conv::Any);
    lemma_take(f2, k, t2, 12, Conv::Any);
    let t3 = t2.insert(12);
    let (f4, tx_cap) = take_spec(f3, 28, Conv::U8);
    lemma_take(f3, k, t3, 28, Conv::U8);
    let t4 = t3.insert(28);
    let (f5, max_unmints) = take_spec(f4, 24, Conv::U32);
    lemma_take(f4, k, t4, 24, Conv::U32);
    let t5 = t4.insert(24);
    let (f6, price) = spec_decode_price(f5);
    lemma_decode_price(f5, k, t5, t);
    let t6 = t5.union(set![14u128, 16, 18, 20]);
    let (f7, seed) = take_spec(f6, 8, Conv::NonZero);
    lemma_take(f6, k, t6, 8, Conv::NonZero);
    assert(t6.insert(8) =~= taken.union(terms_tags()));
}

proof fn lemma_decode_enshrining(m: FieldsView, k: KeepsakeView, taken: Set<u128>, flags0: u128)
    requires
        agrees(m, k, taken),
        k.enshrining is Some,
        k.enshrining.unwrap().mint_terms matches Some(t) ==> t.seed != Some(0u128),
        taken.disjoint(enshrining_tags()),
        Flag::BoostTerms.spec_take(flags0).1 == (k.enshrining.unwrap().boost_terms is Some),
        Flag::MintTerms.spec_take(Flag::BoostTerms.spec_take(flags0).0).1 == (
        k.enshrining.unwrap().mint_terms is Some),
    ensures
        spec_decode_enshrining(m, flags0).2 == k.enshrining.unwrap(),
        spec_decode_enshrining(m, flags0).1 == Flag::MintTerms.spec_take(
            Flag::BoostTerms.spec_take(flags0).0,
        ).0,
        agrees(spec_decode_enshrining(m, flags0).0, k, taken.union(enshrining_tags())),
{
    reveal(expected_vals);    let e = k.enshrining.unwrap();
    let (flags1, has_boost) = Flag::BoostTerms.spec_take(flags0);
    let f1 = if has_boost {
        spec_decode_boost(m).0
    } else {
        m
    };
    match e.boost_terms {
        Some(b) => {
            lemma_decode_boost(m, k, taken, b);
        },
        None => {
            lemma_skip(m, k, taken, boost_tags());
        },
    }
    let t1 = taken.union(boost_tags());
    let (f2, fee) = take_spec(f1, 30, Conv::U16);
    lemma_take(f1, k, t1, 30, Conv::U16);
    let (f3, symbol) = take_spec(f2, 5, Conv::Char);
    if let Some(c) = e.symbol {
        lemma_char_roundtrip(c);
    }
    lemma_take(f2, k, t1.insert(30), 5, Conv::Char);
    let t3 = t1.insert(30).insert(5);
    let (flags2, has_terms) = Flag::MintTerms.spec_take(flags1);
    let f4 = if has_terms {
        spec_decode_mint_terms(f3).0
    } else {
        f3
    };
    match e.mint_terms {
        Some(t) => {
            lemma_decode_terms(f3, k, t3, t);
        },
        None => {
            lemma_skip(f3, k, t3, terms_tags());
        },
    }
    let t4 = t3.union(terms_tags());
    let (f5, subsidy) = take_spec(f4, 98, Conv::Any);
    lemma_take(f4, k, t4, 98, Conv::Any);
    assert(t4.insert(98) =~= taken.union(enshrining_tags()));
}

proof fn lemma_decode_multi_mint(m: FieldsView, k: KeepsakeView, taken: Set<u128>)
    requires
        agrees(m, k, taken),
        k.mint is Some,
        valid_id(k.mint.unwrap().relic),
        taken.disjoint(mint_tags()),
    ensures
        spec_decode_multi_mint(m) is Some,
        spec_decode_multi_mint(m).unwrap().1 == k.mint.unwrap(),
        agrees(spec_decode_multi_mint(m).unwrap().0, k, taken.union(mint_tags())),
{
    reveal(expected_vals);    let mm = k.mint.unwrap();
    let (f1, unmint) = take_spec(m, 86, Conv::Any);
    lemma_take(m, k, taken, 86, Conv::Any);
    let (f2, count) = take_spec(f1, 80, Conv::U8);
    lemma_take(f1, k, taken.insert(86), 80, Conv::U8);
    let (f3, base_limit) = take_spec(f2, 82, Conv::Any);
    lemma_take(f2, k, taken.insert(86).insert(80), 82, Conv::Any);
    let (f4, relic) = take_id_spec(f3, 84);
    lemma_take_id(f3, k, taken.insert(86).insert(80).insert(82), 84);
    assert(taken.insert(86).insert(80).insert(82).insert(84) =~= taken.union(mint_tags()));
}

proof fn lemma_decode_swap(m: FieldsView, k: KeepsakeView, taken: Set<u128>, flags0: u128)
    requires
        agrees(m, k, taken),
        k.swap is Some,
        k.swap.unwrap().input matches Some(id) ==> valid_id(id),
        k.swap.unwrap().output matches Some(id) ==> valid_id(id),
        k.swap.unwrap().input_amount != Some(0u128),
        k.swap.unwrap().output_amount != Some(0u128),
        taken.disjoint(swap_tags()),
        Flag::SwapExactInput.spec_take(flags0).1 == k.swap.unwrap().is_exact_input,
    ensures
        spec_decode_swap(m, flags0).2 == k.swap.unwrap(),
        spec_decode_swap(m, flags0).1 == Flag::SwapExactInput.spec_take(flags0).0,
        agrees(spec_decode_swap(m, flags0).0, k, taken.union(swap_tags())),
{
    reveal(expected_vals);    let (f1, input) = take_id_spec(m, 90);
    lemma_take_id(m, k, taken, 90);
    let (f2, output) = take_id_spec(f1, 92);
    lemma_take_id(f1, k, taken.insert(90), 92);
    let (f3, input_amount) = take_spec(f2, 94, Conv::NonZero);
    lemma_take(f2, k, taken.insert(90).insert(92), 94, Conv::NonZero);
    let (f4, output_amount) = take_spec(f3, 96, Conv::NonZero);
    lemma_take(f3, k, taken.insert(90).insert(92).insert(94), 96, Conv::NonZero);
    assert(taken.insert(90).insert(92).insert(94).insert(96) =~= taken.union(swap_tags()));
}

/// A keepsake that its integers write faithfully for a transaction with `n` outputs:
/// valid transfer ids and outputs, a pointer and a claim below `n`, a valid
/// enshrining with no zero seed, a mint of a valid id other than the base token, and a
/// swap between two different relics, with valid ids and no zero amounts.
pub open spec fn encodable(k: KeepsakeView, n: nat) -> bool {
    &&& n <= u32::MAX
    &&& valid_transfers(k.transfers, n)
    &&& (k.pointer matches Some(p) ==> p < n)
    &&& (k.claim matches Some(c) ==> c < n)
    &&& (k.enshrining matches Some(e) ==> e.spec_validate() is Ok && (e.mint_terms matches Some(
        t,
    ) ==> t.seed != Some(0u128)))
    &&& (k.mint matches Some(m) ==> valid_id(m.relic) && m.relic != spec_relic_id())
    &&& (k.swap matches Some(s) ==> {
        &&& s.input matches Some(id) ==> valid_id(id)
        &&& s.output matches Some(id) ==> valid_id(id)
        &&& s.input_amount != Some(0u128)
        &&& s.output_amount != Some(0u128)
        &&& (match s.input {
            Some(i) => i,
            None => spec_relic_id(),
        }) != (match s.output {
            Some(o) => o,
            None => spec_relic_id(),
        })
    })
}

/// The keepsake as deciphering gives it back: its transfers sorted by id.
pub open spec fn normalized(k: KeepsakeView) -> KeepsakeView {
    KeepsakeView { transfers: sort_transfers(k.transfers), ..k }
}

pub open spec fn all_tags() -> Set<u128> {
    set![2u128].union(enshrining_tags()).union(mint_tags()).union(swap_tags()).union(
        set![4u128, 6],
    )
}

proof fn lemma_vals_tags(k: KeepsakeView, t: u128)
    requires
        expected_vals(k, t).len() > 0,
    ensures
        all_tags().contains(t),
{
    reveal(expected_vals);}

/// The flags field gives the keepsake's flags back.
proof fn lemma_flags_field(m: FieldsView, k: KeepsakeView)
    requires
        agrees(m, k, Set::empty()),
    ensures
        (match take_spec(m, 2, Conv::Any).1 {
            Some(v) => v,
            None => 0,
        }) == spec_flags(k),
        agrees(take_spec(m, 2, Conv::Any).0, k, Set::<u128>::empty().insert(2)),
{
    reveal(expected_vals);
    lemma_take(m, k, Set::empty(), 2, Conv::Any);
}

/// Without an enshrining, none of its tags has values.
proof fn lemma_skip_enshrining(m: FieldsView, k: KeepsakeView, taken: Set<u128>)
    requires
        agrees(m, k, taken),
        k.enshrining is None,
    ensures
        agrees(m, k, taken.union(enshrining_tags())),
{
    reveal(expected_vals);
    lemma_skip(m, k, taken, enshrining_tags());
}

/// Without a mint, none of its tags has values.
proof fn lemma_skip_mint(m: FieldsView, k: KeepsakeView, taken: Set<u128>)
    requires
        agrees(m, k, taken),
        k.mint is None,
    ensures
        agrees(m, k, taken.union(mint_tags())),
{
    reveal(expected_vals);
    lemma_skip(m, k, taken, mint_tags());
}

/// Without a swap, none of its tags has values.
proof fn lemma_skip_swap(m: FieldsView, k: KeepsakeView, taken: Set<u128>)
    requires
        agrees(m, k, taken),
        k.swap is None,
    ensures
        agrees(m, k, taken.union(swap_tags())),
{
    reveal(expected_vals);
    lemma_skip(m, k, taken, swap_tags());
}

/// The pointer and the claim come back, and no field is left.
proof fn lemma_pointer_claim(m: FieldsView, k: KeepsakeView, taken: Set<u128>, n: nat)
    requires
        agrees(m, k, taken),
        encodable(k, n),
        taken == set![2u128].union(enshrining_tags()).union(mint_tags()).union(swap_tags()),
    ensures
        take_spec(m, 4, Conv::Output(n as usize)).1 == wide32(k.pointer),
        take_spec(take_spec(m, 4, Conv::Output(n as usize)).0, 6, Conv::Output(n as usize)).1
            == wide32(k.claim),
        !has_even_key(
            take_spec(take_spec(m, 4, Conv::Output(n as usize)).0, 6, Conv::Output(n as usize)).0,
        ),
{
    reveal(expected_vals);
    let (f5, pointer) = take_spec(m, 4, Conv::Output(n as usize));
    lemma_take(m, k, taken, 4, Conv::Output(n as usize));
    let (f6, claim) = take_spec(f5, 6, Conv::Output(n as usize));
    lemma_take(f5, k, taken.insert(4), 6, Conv::Output(n as usize));
    assert(taken.insert(4).insert(6) =~= all_tags());
    lemma_no_even_key(f6, k);
}

/// Interpreting the fields of a keepsake (and its sorted transfers) gives it back.
#[verifier::rlimit(40)]
proof fn lemma_interpret_fields(k: KeepsakeView, n: nat, msg: MessageView)
    requires
        encodable(k, n),
        msg.flaw is None,
        msg.transfers == sort_transfers(k.transfers),
        agrees(msg.fields, k, Set::empty()),
    ensures
        spec_interpret(n, msg) == Some(ArtifactView::Keepsake(normalized(k))),
{
    lemma_masks();
    let f = spec_flags(k);
    let s = k.sealing;
    let e = k.enshrining is Some;
    let b = e && k.enshrining.unwrap().boost_terms is Some;
    let t = e && k.enshrining.unwrap().mint_terms is Some;
    let m = k.mint is Some;
    let w = k.swap is Some;
    let x = w && k.swap.unwrap().is_exact_input;
    lemma_flag_bits(s, e, b, t, m, w, x, f);
    let (f1, flags_opt) = take_spec(msg.fields, 2, Conv::Any);
    lemma_flags_field(msg.fields, k);
    let taken1 = Set::<u128>::empty().insert(2);
    let flags0: u128 = match flags_opt {
        Some(v) => v,
        None => 0,
    };
    let (flags1, sealing) = Flag::Sealing.spec_take(flags0);
    let (flags2, has_enshrining) = Flag::Enshrining.spec_take(flags1);
    let f2 = if has_enshrining {
        spec_decode_enshrining(f1, flags2).0
    } else {
        f1
    };
    let flags3 = if has_enshrining {
        spec_decode_enshrining(f1, flags2).1
    } else {
        flags2
    };
    if e {
        lemma_decode_enshrining(f1, k, taken1, flags2);
    } else {
        lemma_skip_enshrining(f1, k, taken1);
    }
    let taken2 = taken1.union(enshrining_tags());
    let (flags4, has_mint) = Flag::MultiMint.spec_take(flags3);
    let f3 = if has_mint {
        spec_decode_multi_mint(f2).unwrap().0
    } else {
        f2
    };
    if m {
        lemma_decode_multi_mint(f2, k, taken2);
    } else {
        lemma_skip_mint(f2, k, taken2);
    }
    let taken3 = taken2.union(mint_tags());
    let (flags5, has_swap) = Flag::Swap.spec_take(flags4);
    let f4 = if has_swap {
        spec_decode_swap(f3, flags5).0
    } else {
        f3
    };
    if w {
        lemma_decode_swap(f3, k, taken3, flags5);
    } else {
        lemma_skip_swap(f3, k, taken3);
    }
    let taken4 = taken3.union(swap_tags());
    assert(taken4 =~= set![2u128].union(enshrining_tags()).union(mint_tags()).union(swap_tags()));
    lemma_pointer_claim(f4, k, taken4, n);
}

proof fn lemma_no_even_key(f: FieldsView, k: KeepsakeView)
    requires
        agrees(f, k, all_tags()),
    ensures
        !has_even_key(f),
{
    reveal(agrees);
    if has_even_key(f) {
        let q = choose|q: u128| f.contains_key(q) && q % 2 == 0;
        if expected_vals(k, q).len() > 0 {
            lemma_vals_tags(k, q);
        }
    }
}

/// The fields that a keepsake's integers are read into hold its values, tag by tag.
proof fn lemma_fields_agree(k: KeepsakeView)
    ensures
        agrees(fold_fields(Map::empty(), fields_ints(k)), k, Set::empty()),
{
    reveal(agrees);
    let fi = fields_ints(k);
    let m0 = Map::<u128, Seq<u128>>::empty();
    let fields = fold_fields(m0, fi);
    assert forall|q: u128|
        (#[trigger] fields.contains_key(q) <==> (expected_vals(k, q).len() > 0 && !Set::<
            u128,
        >::empty().contains(q))) && (fields.contains_key(q) ==> fields[q] == expected_vals(k, q)) by {
        lemma_fold_fields(m0, fi, q);
        lemma_keepsake_vals(k, q);
        lemma_expected_vals(k, q);
        assert(entry_of(m0, q) + vals_of(fi, q) =~= vals_of(fi, q));
    }
}

/// Sorting valid transfers keeps them valid.
proof fn lemma_sorted_transfers_valid(ts: Seq<Transfer>, n: nat)
    requires
        valid_transfers(ts, n),
    ensures
        valid_transfers(sort_transfers(ts), n),
{
    let sorted = sort_transfers(ts);
    lemma_sort_transfers_sorted(ts);
    assert forall|i: int| 0 <= i < sorted.len() implies valid_id(#[trigger] sorted[i].id) && sorted[i].output
        <= n by {
        assert(ts.contains(sorted[i]));
        let j = choose|j: int| 0 <= j < ts.len() && ts[j] == sorted[i];
        assert(valid_id(ts[j].id));
    }
}

/// Deciphering the integers that a keepsake is written as gives the keepsake back,
/// its transfers sorted by id.
#[verifier::spinoff_prover]
pub proof fn lemma_keepsake_roundtrip(k: KeepsakeView, n: nat)
    requires
        encodable(k, n),
    ensures
        spec_decipher_integers(n, spec_keepsake_integers(k)) == Some(
            ArtifactView::Keepsake(normalized(k)),
        ),
{
    let fi = fields_ints(k);
    let sorted = sort_transfers(k.transfers);
    let body: Seq<u128> = if k.transfers.len() > 0 {
        seq![0u128] + body_ints(sorted)
    } else {
        Seq::empty()
    };
    let ints = spec_keepsake_integers(k);
    assert(ints =~= fi + body);
    lemma_keepsake_vals(k, 0);
    let m0 = Map::<u128, Seq<u128>>::empty();
    assert(ints.subrange(0, fi.len() as int) =~= fi);
    lemma_message_pairs(n, ints, 0, fi, m0);
    let fields = fold_fields(m0, fi);
    lemma_fields_agree(k);
    lemma_sort_transfers_sorted(k.transfers);
    let msg = spec_message(n, ints);
    if k.transfers.len() > 0 {
        assert(ints[fi.len() as int] == 0);
        lemma_sorted_transfers_valid(k.transfers, n);
        assert(ints.subrange(fi.len() + 1int, ints.len() as int) =~= body_ints(sorted));
        lemma_body_parse(n, ints, fi.len() + 1int, sorted);
        assert(msg == MessageView { flaw: None, transfers: sorted, fields });
    } else {
        assert(sorted =~= Seq::<Transfer>::empty());
        assert(msg == MessageView { flaw: None, transfers: sorted, fields });
    }
    lemma_interpret_fields(k, n, msg);
}

/// A transaction whose first keepsake output holds the script that `encipher` writes
/// for a keepsake deciphers to that keepsake, its transfers sorted by id.
pub proof fn lemma_decipher_enciphered(k: KeepsakeView, scripts: Seq<Seq<u8>>, i: int)
    requires
        encodable(k, scripts.len()),
        0 <= i < scripts.len(),
        forall|j: int|
            0 <= j < i ==> spec_output_payload(script_instructions(#[trigger] scripts[j])) is None,
        spec_output_payload(script_instructions(scripts[i])) == Some(
            PayloadView::Valid(encode_all(spec_keepsake_integers(k))),
        ),
        spec_integers(encode_all(spec_keepsake_integers(k))) == Some(spec_keepsake_integers(k)),
    ensures
        spec_decipher(scripts) == Some(ArtifactView::Keepsake(normalized(k))),
{
    lemma_payload_skip(scripts, 0, i);
    lemma_keepsake_roundtrip(k, scripts.len());
}

proof fn lemma_payload_skip(scripts: Seq<Seq<u8>>, j: int, i: int)
    requires
        0 <= j <= i < scripts.len(),
        forall|q: int|
            0 <= q < i ==> spec_output_payload(script_instructions(#[trigger] scripts[q])) is None,
    ensures
        spec_payload(scripts, j) == spec_payload(scripts, i),
    decreases i - j,
{
    if j < i {
        lemma_payload_skip(scripts, j + 1, i);
    }
}

} // verus!
