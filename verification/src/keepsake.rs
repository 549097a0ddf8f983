pub mod encipher;
pub mod flag;
pub mod message;
pub mod roundtrip;
pub mod tag;

use crate::enshrining::{BoostTerms, Enshrining, MintTerms, MultiMint, PriceModel};
use crate::flaw::RelicFlaw;
use crate::relic_id::{relic_id, spec_relic_id, RelicId};
use crate::script::{
    char_from_u32, decode_varint, instructions, script_instructions, varint_decode, Instruction,
    InstructionView,
};
use crate::swap::Swap;
use crate::transaction::Transaction;
use crate::transfer::Transfer;
use flag::Flag;
use message::{lemma_message_fits, spec_message, transfers_fit, Message, MessageView};
use std::collections::{HashMap, VecDeque};
use tag::{consume, consume_values, fields_view, peek, peek_values, FieldsView, Tag};
use vstd::prelude::*;
use vstd::std_specs::iter::IteratorSpec;

verus! {

broadcast use vstd::std_specs::hash::group_hash_axioms;

/// `OP_RETURN`, the first opcode of a keepsake script.
pub const OP_RETURN: u8 = 0x6a;

/// `OP_PUSHNUM_15`, the protocol identifier that follows it (runes use 13, relics 15).
pub const MAGIC_NUMBER: u8 = 0x5f;

/// Relic protocol message.
#[derive(Clone, Debug, PartialEq, Eq)]
pub struct Keepsake {
    /// allocation of relics to outputs
    pub transfers: Vec<Transfer>,
    /// output to receive unallocated relics; the first non-`OP_RETURN` output where unset
    pub pointer: Option<u32>,
    /// output whose script receives the fees that it may claim
    pub claim: Option<u32>,
    /// seal a relic ticker
    pub sealing: bool,
    /// enshrine a previously sealed relic
    pub enshrining: Option<Enshrining>,
    /// multi mint (or unmint) a relic
    pub mint: Option<MultiMint>,
    /// execute a token swap
    pub swap: Option<Swap>,
}

/// The mathematical form of a [`Keepsake`].
pub struct KeepsakeView {
    pub transfers: Seq<Transfer>,
    pub pointer: Option<u32>,
    pub claim: Option<u32>,
    pub sealing: bool,
    pub enshrining: Option<Enshrining>,
    pub mint: Option<MultiMint>,
    pub swap: Option<Swap>,
}

impl View for Keepsake {
    type V = KeepsakeView;

    open spec fn view(&self) -> KeepsakeView {
        KeepsakeView {
            transfers: self.transfers@,
            pointer: self.pointer,
            claim: self.claim,
            sealing: self.sealing,
            enshrining: self.enshrining,
            mint: self.mint,
            swap: self.swap,
        }
    }
}

impl Default for Keepsake {
    fn default() -> (k: Self)
        ensures
            k@ == (KeepsakeView {
                transfers: seq![],
                pointer: None,
                claim: None,
                sealing: false,
                enshrining: None,
                mint: None,
                swap: None,
            }),
    {
        Keepsake {
            transfers: Vec::new(),
            pointer: None,
            claim: None,
            sealing: false,
            enshrining: None,
            mint: None,
            swap: None,
        }
    }
}

/// A keepsake whose message is malformed.
#[derive(Clone, Copy, Debug, PartialEq, Eq, Structural)]
pub struct RelicCenotaph {
    pub flaw: Option<RelicFlaw>,
}

impl Default for RelicCenotaph {
    fn default() -> (c: Self)
        ensures
            c == (RelicCenotaph { flaw: None }),
    {
        RelicCenotaph { flaw: None }
    }
}

/// What a transaction's protocol message turns out to be.
#[derive(Clone, Debug, PartialEq, Eq)]
pub enum RelicArtifact {
    Cenotaph(RelicCenotaph),
    Keepsake(Keepsake),
}

/// The mathematical form of a [`RelicArtifact`].
pub enum ArtifactView {
    Cenotaph(Option<RelicFlaw>),
    Keepsake(KeepsakeView),
}

impl View for RelicArtifact {
    type V = ArtifactView;

    open spec fn view(&self) -> ArtifactView {
        match self {
            RelicArtifact::Cenotaph(c) => ArtifactView::Cenotaph(c.flaw),
            RelicArtifact::Keepsake(k) => ArtifactView::Keepsake(k@),
        }
    }
}

pub open spec fn artifact_opt_view(a: Option<RelicArtifact>) -> Option<ArtifactView> {
    match a {
        Some(a) => Some(a@),
        None => None,
    }
}

/// The data pushes of a keepsake script, concatenated, or why they are not data.
#[derive(Clone, Debug, PartialEq, Eq)]
pub enum Payload {
    Valid(Vec<u8>),
    Invalid(RelicFlaw),
}

pub enum PayloadView {
    Valid(Seq<u8>),
    Invalid(RelicFlaw),
}

impl View for Payload {
    type V = PayloadView;

    open spec fn view(&self) -> PayloadView {
        match self {
            Payload::Valid(p) => PayloadView::Valid(p@),
            Payload::Invalid(f) => PayloadView::Invalid(*f),
        }
    }
}

/// A malformed varint in a payload.
#[derive(Clone, Copy, Debug, PartialEq, Eq, Structural)]
pub struct VarintError;

/// The payload of the instructions from index `i` on, with the bytes `acc` so far:
/// the pushes concatenated, or the flaw of the first instruction that is not a push.
pub open spec fn spec_pushes(instrs: Seq<InstructionView>, i: int, acc: Seq<u8>) -> PayloadView
    decreases instrs.len() - i,
{
    if i >= instrs.len() {
        PayloadView::Valid(acc)
    } else {
        match instrs[i] {
            InstructionView::PushBytes(b) => spec_pushes(instrs, i + 1, acc + b),
            InstructionView::Op(_) => PayloadView::Invalid(RelicFlaw::Opcode),
            InstructionView::Invalid => PayloadView::Invalid(RelicFlaw::InvalidScript),
        }
    }
}

/// The payload of an output script, where it starts with `OP_RETURN` and the magic number.
pub open spec fn spec_output_payload(instrs: Seq<InstructionView>) -> Option<PayloadView> {
    if instrs.len() >= 2 && instrs[0] == InstructionView::Op(OP_RETURN) && instrs[1]
        == InstructionView::Op(MAGIC_NUMBER) {
        Some(spec_pushes(instrs, 2, seq![]))
    } else {
        None
    }
}

/// The payload of the first keepsake output among the scripts from index `i` on.
pub open spec fn spec_payload(scripts: Seq<Seq<u8>>, i: int) -> Option<PayloadView>
    decreases scripts.len() - i,
{
    if i >= scripts.len() {
        None
    } else {
        match spec_output_payload(script_instructions(scripts[i])) {
            Some(p) => Some(p),
            None => spec_payload(scripts, i + 1),
        }
    }
}

/// The varints of a payload, in order, where each decodes.
pub open spec fn spec_integers(payload: Seq<u8>) -> Option<Seq<u128>>
    decreases payload.len(),
{
    if payload.len() == 0 {
        Some(seq![])
    } else {
        match varint_decode(payload) {
            Some((n, len)) => if 1 <= len <= payload.len() {
                match spec_integers(payload.skip(len as int)) {
                    Some(rest) => Some(seq![n] + rest),
                    None => None,
                }
            } else {
                None
            },
            None => None,
        }
    }
}

/// Which values a field accepts.
#[derive(Clone, Copy, Debug, PartialEq, Eq, Structural)]
pub enum Conv {
    Any,
    NonZero,
    U32,
    U16,
    U8,
    Char,
    /// an output of a transaction with this many outputs
    Output(usize),
}

pub open spec fn conv_accepts(conv: Conv, v: u128) -> bool {
    match conv {
        Conv::Any => true,
        Conv::NonZero => v > 0,
        Conv::U32 => v <= u32::MAX,
        Conv::U16 => v <= u16::MAX,
        Conv::U8 => v <= u8::MAX,
        Conv::Char => v <= 0xD7FF || (0xE000 <= v && v <= 0x10FFFF),
        Conv::Output(n) => v <= u32::MAX && v < n,
    }
}

/// The first value of `tag` and the fields without it, where the value is accepted;
/// otherwise no value and the fields unchanged.
pub open spec fn take_spec(fields: FieldsView, tag: u128, conv: Conv) -> (FieldsView, Option<u128>) {
    match peek(fields, tag, 1) {
        Some(vals) => if conv_accepts(conv, vals[0]) {
            (consume(fields, tag, 1), Some(vals[0]))
        } else {
            (fields, None)
        },
        None => (fields, None),
    }
}

/// The relic id that a block and a transaction value name.
pub open spec fn relic_id_of(block: u128, tx: u128) -> Option<RelicId> {
    if block > u64::MAX || tx > u32::MAX {
        None
    } else {
        RelicId::spec_new(block as u64, tx as u32)
    }
}

/// The relic id of the first two values of `tag`, taken as `take_spec` takes one.
pub open spec fn take_id_spec(fields: FieldsView, tag: u128) -> (FieldsView, Option<RelicId>) {
    match peek(fields, tag, 2) {
        Some(vals) => match relic_id_of(vals[0], vals[1]) {
            Some(id) => (consume(fields, tag, 2), Some(id)),
            None => (fields, None),
        },
        None => (fields, None),
    }
}

pub open spec fn opt_u32(o: Option<u128>) -> Option<u32> {
    match o {
        Some(v) => Some(v as u32),
        None => None,
    }
}

pub open spec fn opt_u16(o: Option<u128>) -> Option<u16> {
    match o {
        Some(v) => Some(v as u16),
        None => None,
    }
}

pub open spec fn opt_u8(o: Option<u128>) -> Option<u8> {
    match o {
        Some(v) => Some(v as u8),
        None => None,
    }
}

pub open spec fn opt_char(o: Option<u128>) -> Option<char> {
    match o {
        Some(v) => Some((v as u32) as char),
        None => None,
    }
}

/// The boost terms of an enshrining, and the fields without their values.
pub open spec fn spec_decode_boost(f0: FieldsView) -> (FieldsView, BoostTerms) {
    let (f1, rc) = take_spec(f0, Tag::RareChance.value(), Conv::U32);
    let (f2, rm) = take_spec(f1, Tag::RareMultiplierCap.value(), Conv::U16);
    let (f3, urc) = take_spec(f2, Tag::UltraRareChance.value(), Conv::U32);
    let (f4, urm) = take_spec(f3, Tag::UltraRareMultiplierCap.value(), Conv::U16);
    (
        f4,
        BoostTerms {
            rare_chance: opt_u32(rc),
            rare_multiplier_cap: opt_u16(rm),
            ultra_rare_chance: opt_u32(urc),
            ultra_rare_multiplier_cap: opt_u16(urm),
        },
    )
}

/// The price model: a fixed price, or else a formula where all three of its
/// parameters are present.
pub open spec fn spec_decode_price(f0: FieldsView) -> (FieldsView, Option<PriceModel>) {
    let (f1, p) = take_spec(f0, Tag::Price.value(), Conv::Any);
    match p {
        Some(p) => (f1, Some(PriceModel::Fixed(p))),
        None => {
            let (f2, a) = take_spec(f1, Tag::PriceFormulaA.value(), Conv::Any);
            let (f3, b) = take_spec(f2, Tag::PriceFormulaB.value(), Conv::Any);
            let (f4, c) = take_spec(f3, Tag::PriceFormulaC.value(), Conv::Any);
            if a is Some && b is Some && c is Some {
                (f4, Some(PriceModel::Formula { a: a.unwrap(), b: b.unwrap(), c: c.unwrap() }))
            } else {
                (f4, None)
            }
        },
    }
}

/// The mint terms of an enshrining.
pub open spec fn spec_decode_mint_terms(f0: FieldsView) -> (FieldsView, MintTerms) {
    let (f1, amount) = take_spec(f0, Tag::Amount.value(), Conv::Any);
    let (f2, block_cap) = take_spec(f1, Tag::BlockCap.value(), Conv::U32);
    let (f3, cap) = take_spec(f2, Tag::Cap.value(), Conv::Any);
    let (f4, tx_cap) = take_spec(f3, Tag::TxCap.value(), Conv::U8);
    let (f5, max_unmints) = take_spec(f4, Tag::MaxUnmints.value(), Conv::U32);
    let (f6, price) = spec_decode_price(f5);
    let (f7, seed) = take_spec(f6, Tag::Seed.value(), Conv::NonZero);
    (
        f7,
        MintTerms {
            amount,
            block_cap: opt_u32(block_cap),
            cap,
            max_unmints: opt_u32(max_unmints),
            price,
            seed,
            tx_cap: opt_u8(tx_cap),
        },
    )
}

/// An enshrining, with the fields and the flags left after it.
pub open spec fn spec_decode_enshrining(f0: FieldsView, flags0: u128) -> (FieldsView, u128, Enshrining) {
    let (flags1, has_boost) = Flag::BoostTerms.spec_take(flags0);
    let (f1, boost_terms) = if has_boost {
        let (f, b) = spec_decode_boost(f0);
        (f, Some(b))
    } else {
        (f0, None)
    };
    let (f2, fee) = take_spec(f1, Tag::Fee.value(), Conv::U16);
    let (f3, symbol) = take_spec(f2, Tag::Symbol.value(), Conv::Char);
    let (flags2, has_terms) = Flag::MintTerms.spec_take(flags1);
    let (f4, mint_terms) = if has_terms {
        let (f, t) = spec_decode_mint_terms(f3);
        (f, Some(t))
    } else {
        (f3, None)
    };
    let (f5, subsidy) = take_spec(f4, Tag::Subsidy.value(), Conv::Any);
    (
        f5,
        flags2,
        Enshrining { boost_terms, fee: opt_u16(fee), subsidy, symbol: opt_char(symbol), mint_terms },
    )
}

/// A multi mint; `None` where its count, base limit or relic is missing.
pub open spec fn spec_decode_multi_mint(f0: FieldsView) -> Option<(FieldsView, MultiMint)> {
    let (f1, unmint) = take_spec(f0, Tag::MultiMintIsUnmint.value(), Conv::Any);
    let is_unmint = match unmint {
        Some(v) => v != 0,
        None => false,
    };
    let (f2, count) = take_spec(f1, Tag::MultiMintCount.value(), Conv::U8);
    let (f3, base_limit) = take_spec(f2, Tag::MultiMintBaseLimit.value(), Conv::Any);
    let (f4, relic) = take_id_spec(f3, Tag::MultiMintRelic.value());
    if count is Some && base_limit is Some && relic is Some {
        Some(
            (
                f4,
                MultiMint {
                    count: count.unwrap() as u8,
                    base_limit: base_limit.unwrap(),
                    relic: relic.unwrap(),
                    is_unmint,
                },
            ),
        )
    } else {
        None
    }
}

/// A swap, with the fields and flags left after it.
pub open spec fn spec_decode_swap(f0: FieldsView, flags0: u128) -> (FieldsView, u128, Swap) {
    let (f1, input) = take_id_spec(f0, Tag::SwapInput.value());
    let (f2, output) = take_id_spec(f1, Tag::SwapOutput.value());
    let (f3, input_amount) = take_spec(f2, Tag::SwapInputAmount.value(), Conv::NonZero);
    let (f4, output_amount) = take_spec(f3, Tag::SwapOutputAmount.value(), Conv::NonZero);
    let (flags1, is_exact_input) = Flag::SwapExactInput.spec_take(flags0);
    (f4, flags1, Swap { input, output, input_amount, output_amount, is_exact_input })
}

/// Whether some field has an even tag.
pub open spec fn has_even_key(fields: FieldsView) -> bool {
    exists|k: u128| fields.contains_key(k) && k % 2 == 0
}

pub open spec fn first_flaw(a: Option<RelicFlaw>, b: Option<RelicFlaw>) -> Option<RelicFlaw> {
    if a is Some {
        a
    } else {
        b
    }
}

/// The flaw that an enshrining's validation finds, if any.
pub open spec fn enshrining_flaw(e: Option<Enshrining>) -> Option<RelicFlaw> {
    match e {
        Some(e) => match e.spec_validate() {
            Err(f) => Some(f),
            Ok(()) => None,
        },
        None => None,
    }
}

/// The artifact of a message in a transaction with `n_outputs` outputs: the fields are
/// read in protocol order, and the first flaw found makes the message a cenotaph.
pub open spec fn spec_interpret(n_outputs: nat, msg: MessageView) -> Option<ArtifactView> {
    let (f1, flags_opt) = take_spec(msg.fields, Tag::Flags.value(), Conv::Any);
    let flags0: u128 = match flags_opt {
        Some(f) => f,
        None => 0,
    };
    let (flags1, sealing) = Flag::Sealing.spec_take(flags0);
    let (flags2, has_enshrining) = Flag::Enshrining.spec_take(flags1);
    let (f2, flags3, enshrining) = if has_enshrining {
        let (f, fl, e) = spec_decode_enshrining(f1, flags2);
        (f, fl, Some(e))
    } else {
        (f1, flags2, None)
    };
    let (flags4, has_mint) = Flag::MultiMint.spec_take(flags3);
    if has_mint && spec_decode_multi_mint(f2) is None {
        None
    } else {
        let (f3, mint) = if has_mint {
            let (f, m) = spec_decode_multi_mint(f2).unwrap();
            (f, Some(m))
        } else {
            (f2, None)
        };
        let (flags5, has_swap) = Flag::Swap.spec_take(flags4);
        let (f4, flags6, swap) = if has_swap {
            let (f, fl, s) = spec_decode_swap(f3, flags5);
            (f, fl, Some(s))
        } else {
            (f3, flags5, None)
        };
        let (f5, pointer) = take_spec(f4, Tag::Pointer.value(), Conv::Output(n_outputs as usize));
        let (f6, claim) = take_spec(f5, Tag::Claim.value(), Conv::Output(n_outputs as usize));
        let base_mint = mint is Some && mint.unwrap().relic == spec_relic_id();
        let same_swap = swap is Some && (match swap.unwrap().input {
            Some(i) => i,
            None => spec_relic_id(),
        }) == (match swap.unwrap().output {
            Some(o) => o,
            None => spec_relic_id(),
        });
        let even_tag = has_even_key(f6);
        let flaw = first_flaw(
            msg.flaw,
            first_flaw(
                enshrining_flaw(enshrining),
                first_flaw(
                    if base_mint {
                        Some(RelicFlaw::InvalidBaseTokenMint)
                    } else {
                        None
                    },
                    first_flaw(
                        if same_swap {
                            Some(RelicFlaw::InvalidSwap)
                        } else {
                            None
                        },
                        first_flaw(
                            if flags6 != 0 {
                                Some(RelicFlaw::UnrecognizedFlag)
                            } else {
                                None
                            },
                            if even_tag {
                                Some(RelicFlaw::UnrecognizedEvenTag)
                            } else {
                                None
                            },
                        ),
                    ),
                ),
            ),
        );
        match flaw {
            Some(f) => Some(ArtifactView::Cenotaph(Some(f))),
            None => Some(
                ArtifactView::Keepsake(
                    KeepsakeView {
                        transfers: msg.transfers,
                        pointer: opt_u32(pointer),
                        claim: opt_u32(claim),
                        sealing,
                        enshrining,
                        mint,
                        swap,
                    },
                ),
            ),
        }
    }
}

/// The artifact of a keepsake's integers in a transaction with `n_outputs` outputs.
pub open spec fn spec_decipher_integers(n_outputs: nat, ints: Seq<u128>) -> Option<ArtifactView> {
    spec_interpret(n_outputs, spec_message(n_outputs, ints))
}

/// The artifact of a transaction with the given output scripts: none without a keepsake
/// output, a cenotaph for a malformed script or payload, else what its integers say.
pub open spec fn spec_decipher(scripts: Seq<Seq<u8>>) -> Option<ArtifactView> {
    match spec_payload(scripts, 0) {
        None => None,
        Some(PayloadView::Invalid(flaw)) => Some(ArtifactView::Cenotaph(Some(flaw))),
        Some(PayloadView::Valid(p)) => match spec_integers(p) {
            None => Some(ArtifactView::Cenotaph(Some(RelicFlaw::Varint))),
            Some(ints) => spec_decipher_integers(scripts.len(), ints),
        },
    }
}

fn accepts(conv: Conv, v: u128) -> (r: bool)
    ensures
        r == conv_accepts(conv, v),
{
    match conv {
        Conv::Any => true,
        Conv::NonZero => v > 0,
        Conv::U32 => v <= u32::MAX as u128,
        Conv::U16 => v <= u16::MAX as u128,
        Conv::U8 => v <= u8::MAX as u128,
        Conv::Char => v <= 0x10FFFF && char_from_u32(v as u32).is_some(),
        Conv::Output(n) => v <= u32::MAX as u128 && (v as usize) < n,
    }
}

fn take_field(fields: &mut HashMap<u128, VecDeque<u128>>, tag: Tag, conv: Conv) -> (r: Option<u128>)
    ensures
        (fields_view(final(fields)@), r) == take_spec(fields_view(old(fields)@), tag.value(), conv),
{
    let key = tag.to_u128();
    let vals = match peek_values(fields, key, 1) {
        Some(v) => v,
        None => return None,
    };
    let v = vals[0];
    if accepts(conv, v) {
        consume_values(fields, key, 1);
        Some(v)
    } else {
        None
    }
}

fn take_relic_id(fields: &mut HashMap<u128, VecDeque<u128>>, tag: Tag) -> (r: Option<RelicId>)
    ensures
        (fields_view(final(fields)@), r) == take_id_spec(fields_view(old(fields)@), tag.value()),
{
    let key = tag.to_u128();
    let vals = match peek_values(fields, key, 2) {
        Some(v) => v,
        None => return None,
    };
    let block = vals[0];
    let tx = vals[1];
    if block > u64::MAX as u128 || tx > u32::MAX as u128 {
        return None;
    }
    match RelicId::new(block as u64, tx as u32) {
        Some(id) => {
            consume_values(fields, key, 2);
            Some(id)
        },
        None => None,
    }
}

fn to_u32(o: Option<u128>) -> (r: Option<u32>)
    ensures
        r == opt_u32(o),
{
    match o {
        Some(v) => Some(v as u32),
        None => None,
    }
}

fn to_u16(o: Option<u128>) -> (r: Option<u16>)
    ensures
        r == opt_u16(o),
{
    match o {
        Some(v) => Some(v as u16),
        None => None,
    }
}

fn to_u8(o: Option<u128>) -> (r: Option<u8>)
    ensures
        r == opt_u8(o),
{
    match o {
        Some(v) => Some(v as u8),
        None => None,
    }
}

fn to_char(o: Option<u128>) -> (r: Option<char>)
    requires
        o matches Some(v) ==> conv_accepts(Conv::Char, v),
    ensures
        r == opt_char(o),
{
    match o {
        Some(v) => char_from_u32(v as u32),
        None => None,
    }
}

fn has_even_tag(fields: &HashMap<u128, VecDeque<u128>>) -> (r: bool)
    ensures
        r == has_even_key(fields_view(fields@)),
{
    proof {
        assert(fields_view(fields@).dom() =~= fields@.dom());
    }
    let keys = fields.keys();
    let ghost ks = IteratorSpec::remaining(&keys).unref();
    proof {
        assert(ks.to_set() == fields@.dom());
    }
    for k in it: keys
        invariant
            ks.to_set() == fields@.dom(),
            it.seq().unref() == ks,
            forall|j: int| 0 <= j < it.index() ==> #[trigger] ks[j] % 2 != 0,
    {
        proof {
            assert(ks[it.index()] == *k);
            assert(ks.contains(*k));
            assert(ks.to_set().contains(*k));
        }
        if *k % 2 == 0 {
            proof {
                assert(fields_view(fields@).contains_key(*k));
            }
            return true;
        }
    }
    proof {
        assert forall|k: u128| fields@.contains_key(k) implies k % 2 != 0 by {
            assert(ks.to_set().contains(k));
            let j = choose|j: int| 0 <= j < ks.len() && ks[j] == k;
        }
    }
    false
}


pub open spec fn payload_opt_view(p: Option<Payload>) -> Option<PayloadView> {
    match p {
        Some(p) => Some(p@),
        None => None,
    }
}

pub open spec fn instructions_view(instrs: Seq<Instruction>) -> Seq<InstructionView> {
    instrs.map_values(|i: Instruction| i@)
}

fn is_op(instr: &Instruction, op: u8) -> (r: bool)
    ensures
        r == (instr@ == InstructionView::Op(op)),
{
    match instr {
        Instruction::Op(o) => *o == op,
        _ => false,
    }
}

fn append_bytes(acc: &mut Vec<u8>, bytes: &Vec<u8>)
    ensures
        final(acc)@ == old(acc)@ + bytes@,
{
    let ghost start = acc@;
    let mut k: usize = 0;
    while k < bytes.len()
        invariant
            k <= bytes.len(),
            acc@ == start + bytes@.take(k as int),
        decreases bytes.len() - k,
    {
        acc.push(bytes[k]);
        k = k + 1;
        assert(acc@ =~= start + bytes@.take(k as int));
    }
    assert(bytes@.take(bytes.len() as int) =~= bytes@);
}

fn decode_boost(fields: &mut HashMap<u128, VecDeque<u128>>) -> (r: BoostTerms)
    ensures
        (fields_view(final(fields)@), r) == spec_decode_boost(fields_view(old(fields)@)),
{
    let rare_chance = to_u32(take_field(fields, Tag::RareChance, Conv::U32));
    let rare_multiplier_cap = to_u16(take_field(fields, Tag::RareMultiplierCap, Conv::U16));
    let ultra_rare_chance = to_u32(take_field(fields, Tag::UltraRareChance, Conv::U32));
    let ultra_rare_multiplier_cap = to_u16(take_field(fields, Tag::UltraRareMultiplierCap, Conv::U16));
    BoostTerms { rare_chance, rare_multiplier_cap, ultra_rare_chance, ultra_rare_multiplier_cap }
}

fn decode_price(fields: &mut HashMap<u128, VecDeque<u128>>) -> (r: Option<PriceModel>)
    ensures
        (fields_view(final(fields)@), r) == spec_decode_price(fields_view(old(fields)@)),
{
    match take_field(fields, Tag::Price, Conv::Any) {
        Some(p) => Some(PriceModel::Fixed(p)),
        None => {
            let a = take_field(fields, Tag::PriceFormulaA, Conv::Any);
            let b = take_field(fields, Tag::PriceFormulaB, Conv::Any);
            let c = take_field(fields, Tag::PriceFormulaC, Conv::Any);
            match (a, b, c) {
                (Some(a), Some(b), Some(c)) => Some(PriceModel::Formula { a, b, c }),
                _ => None,
            }
        },
    }
}

fn decode_mint_terms(fields: &mut HashMap<u128, VecDeque<u128>>) -> (r: MintTerms)
    ensures
        (fields_view(final(fields)@), r) == spec_decode_mint_terms(fields_view(old(fields)@)),
{
    let amount = take_field(fields, Tag::Amount, Conv::Any);
    let block_cap = to_u32(take_field(fields, Tag::BlockCap, Conv::U32));
    let cap = take_field(fields, Tag::Cap, Conv::Any);
    let tx_cap = to_u8(take_field(fields, Tag::TxCap, Conv::U8));
    let max_unmints = to_u32(take_field(fields, Tag::MaxUnmints, Conv::U32));
    let price = decode_price(fields);
    let seed = take_field(fields, Tag::Seed, Conv::NonZero);
    MintTerms { amount, block_cap, cap, max_unmints, price, seed, tx_cap }
}

fn decode_enshrining(fields: &mut HashMap<u128, VecDeque<u128>>, flags: &mut u128) -> (r: Enshrining)
    ensures
        (fields_view(final(fields)@), *final(flags), r) == spec_decode_enshrining(
            fields_view(old(fields)@),
            *old(flags),
        ),
{
    let boost_terms = if Flag::BoostTerms.take(flags) {
        Some(decode_boost(fields))
    } else {
        None
    };
    let fee = to_u16(take_field(fields, Tag::Fee, Conv::U16));
    let symbol = to_char(take_field(fields, Tag::Symbol, Conv::Char));
    let mint_terms = if Flag::MintTerms.take(flags) {
        Some(decode_mint_terms(fields))
    } else {
        None
    };
    let subsidy = take_field(fields, Tag::Subsidy, Conv::Any);
    Enshrining { boost_terms, fee, subsidy, symbol, mint_terms }
}

fn decode_multi_mint(fields: &mut HashMap<u128, VecDeque<u128>>) -> (r: Option<MultiMint>)
    ensures
        match spec_decode_multi_mint(fields_view(old(fields)@)) {
            Some((f, m)) => r == Some(m) && fields_view(final(fields)@) == f,
            None => r is None,
        },
{
    let is_unmint = match take_field(fields, Tag::MultiMintIsUnmint, Conv::Any) {
        Some(v) => v != 0,
        None => false,
    };
    let count = match take_field(fields, Tag::MultiMintCount, Conv::U8) {
        Some(c) => c as u8,
        None => return None,
    };
    let base_limit = match take_field(fields, Tag::MultiMintBaseLimit, Conv::Any) {
        Some(b) => b,
        None => return None,
    };
    let relic = match take_relic_id(fields, Tag::MultiMintRelic) {
        Some(r) => r,
        None => return None,
    };
    Some(MultiMint { count, base_limit, relic, is_unmint })
}

fn decode_swap(fields: &mut HashMap<u128, VecDeque<u128>>, flags: &mut u128) -> (r: Swap)
    ensures
        (fields_view(final(fields)@), *final(flags), r) == spec_decode_swap(
            fields_view(old(fields)@),
            *old(flags),
        ),
{
    let input = take_relic_id(fields, Tag::SwapInput);
    let output = take_relic_id(fields, Tag::SwapOutput);
    let input_amount = take_field(fields, Tag::SwapInputAmount, Conv::NonZero);
    let output_amount = take_field(fields, Tag::SwapOutputAmount, Conv::NonZero);
    let is_exact_input = Flag::SwapExactInput.take(flags);
    Swap { input, output, input_amount, output_amount, is_exact_input }
}

/// The first flaw among the message's own, the enshrining's, a base token mint, a
/// swap of a token for itself, unknown flags and unknown even tags.
fn collect_flaw(
    flaw: Option<RelicFlaw>,
    enshrining: &Option<Enshrining>,
    mint: &Option<MultiMint>,
    swap: &Option<Swap>,
    flags: u128,
    even_tag: bool,
) -> (r: Option<RelicFlaw>)
    ensures
        r == first_flaw(
            flaw,
            first_flaw(
                enshrining_flaw(*enshrining),
                first_flaw(
                    if mint is Some && mint.unwrap().relic == spec_relic_id() {
                        Some(RelicFlaw::InvalidBaseTokenMint)
                    } else {
                        None
                    },
                    first_flaw(
                        if swap is Some && (match swap.unwrap().input {
                            Some(i) => i,
                            None => spec_relic_id(),
                        }) == (match swap.unwrap().output {
                            Some(o) => o,
                            None => spec_relic_id(),
                        }) {
                            Some(RelicFlaw::InvalidSwap)
                        } else {
                            None
                        },
                        first_flaw(
                            if flags != 0 {
                                Some(RelicFlaw::UnrecognizedFlag)
                            } else {
                                None
                            },
                            if even_tag {
                                Some(RelicFlaw::UnrecognizedEvenTag)
                            } else {
                                None
                            },
                        ),
                    ),
                ),
            ),
        ),
{
    if flaw.is_some() {
        return flaw;
    }
    if let Some(e) = enshrining {
        if let Err(err) = e.validate() {
            return Some(err);
        }
    }
    if let Some(m) = mint {
        if m.relic == relic_id() {
            return Some(RelicFlaw::InvalidBaseTokenMint);
        }
    }
    if let Some(s) = swap {
        let input = match s.input {
            Some(i) => i,
            None => relic_id(),
        };
        let output = match s.output {
            Some(o) => o,
            None => relic_id(),
        };
        if input == output {
            return Some(RelicFlaw::InvalidSwap);
        }
    }
    if flags != 0 {
        return Some(RelicFlaw::UnrecognizedFlag);
    }
    if even_tag {
        return Some(RelicFlaw::UnrecognizedEvenTag);
    }
    None
}

impl Keepsake {
    /// Blocks of confirmations that a commitment needs.
    pub const COMMIT_CONFIRMATIONS: u16 = 6;

    /// The keepsake artifact of a transaction, if it has a keepsake output.
    pub fn decipher(transaction: &Transaction) -> (r: Option<RelicArtifact>)
        requires
            transaction.output.len() <= u32::MAX,
        ensures
            artifact_opt_view(r) == spec_decipher(transaction@),
    {
        let payload = match Keepsake::payload(transaction) {
            Some(Payload::Valid(payload)) => payload,
            Some(Payload::Invalid(flaw)) => {
                return Some(RelicArtifact::Cenotaph(RelicCenotaph { flaw: Some(flaw) }));
            },
            None => return None,
        };
        let integers = match Keepsake::integers(payload.as_slice()) {
            Ok(integers) => integers,
            Err(_) => {
                return Some(RelicArtifact::Cenotaph(RelicCenotaph { flaw: Some(RelicFlaw::Varint) }));
            },
        };
        let message = Message::from_integers(transaction, integers.as_slice());
        Keepsake::interpret(transaction, message)
    }

    fn interpret(transaction: &Transaction, message: Message) -> (r: Option<RelicArtifact>)
        requires
            transaction.output.len() <= u32::MAX,
        ensures
            artifact_opt_view(r) == spec_interpret(transaction.output.len() as nat, message@),
    {
        let ghost msg = message@;
        let Message { flaw, transfers, mut fields } = message;
        let mut flags: u128 = match take_field(&mut fields, Tag::Flags, Conv::Any) {
            Some(f) => f,
            None => 0,
        };
        let sealing = Flag::Sealing.take(&mut flags);
        let enshrining = if Flag::Enshrining.take(&mut flags) {
            Some(decode_enshrining(&mut fields, &mut flags))
        } else {
            None
        };
        let mint = if Flag::MultiMint.take(&mut flags) {
            match decode_multi_mint(&mut fields) {
                Some(m) => Some(m),
                None => return None,
            }
        } else {
            None
        };
        let swap = if Flag::Swap.take(&mut flags) {
            Some(decode_swap(&mut fields, &mut flags))
        } else {
            None
        };
        let n = transaction.output.len();
        let pointer = to_u32(take_field(&mut fields, Tag::Pointer, Conv::Output(n)));
        let claim = to_u32(take_field(&mut fields, Tag::Claim, Conv::Output(n)));
        let even = has_even_tag(&fields);
        let flaw = collect_flaw(flaw, &enshrining, &mint, &swap, flags, even);
        match flaw {
            Some(f) => Some(RelicArtifact::Cenotaph(RelicCenotaph { flaw: Some(f) })),
            None => Some(
                RelicArtifact::Keepsake(
                    Keepsake { transfers, pointer, claim, sealing, enshrining, mint, swap },
                ),
            ),
        }
    }

    /// The payload of the first output whose script starts with `OP_RETURN` and the
    /// magic number: its data pushes concatenated, or the flaw where the rest of the
    /// script is not data pushes.
    pub fn payload(transaction: &Transaction) -> (r: Option<Payload>)
        ensures
            payload_opt_view(r) == spec_payload(transaction@, 0),
    {
        let mut i: usize = 0;
        while i < transaction.output.len()
            invariant
                i <= transaction.output.len(),
                spec_payload(transaction@, 0) == spec_payload(transaction@, i as int),
            decreases transaction.output.len() - i,
        {
            let instrs = instructions(transaction.output[i].script_pubkey.as_slice());
            proof {
                assert(transaction@[i as int] == transaction.output@[i as int].script_pubkey@);
            }
            if instrs.len() >= 2 && is_op(&instrs[0], OP_RETURN) && is_op(&instrs[1], MAGIC_NUMBER) {
                return Some(Keepsake::pushes(&instrs));
            }
            i = i + 1;
        }
        None
    }

    fn pushes(instrs: &Vec<Instruction>) -> (r: Payload)
        requires
            instrs.len() >= 2,
        ensures
            r@ == spec_pushes(instructions_view(instrs@), 2, seq![]),
    {
        let ghost iv = instructions_view(instrs@);
        let mut payload: Vec<u8> = Vec::new();
        let mut j: usize = 2;
        while j < instrs.len()
            invariant
                2 <= j <= instrs.len(),
                iv == instructions_view(instrs@),
                spec_pushes(iv, 2, seq![]) == spec_pushes(iv, j as int, payload@),
            decreases instrs.len() - j,
        {
            match &instrs[j] {
                Instruction::PushBytes(bytes) => append_bytes(&mut payload, bytes),
                Instruction::Op(_) => return Payload::Invalid(RelicFlaw::Opcode),
                Instruction::Invalid => return Payload::Invalid(RelicFlaw::InvalidScript),
            }
            j = j + 1;
        }
        Payload::Valid(payload)
    }

    /// The varints of a payload, in order.
    pub fn integers(payload: &[u8]) -> (r: Result<Vec<u128>, VarintError>)
        ensures
            match r {
                Ok(v) => spec_integers(payload@) == Some(v@),
                Err(_) => spec_integers(payload@) is None,
            },
    {
        let mut integers: Vec<u128> = Vec::new();
        let mut i: usize = 0;
        proof {
            assert(payload@.skip(0) =~= payload@);
            if let Some(r) = spec_integers(payload@) {
                assert(integers@ + r =~= r);
            }
        }
        while i < payload.len()
            invariant
                i <= payload.len(),
                spec_integers(payload@) == (match spec_integers(payload@.skip(i as int)) {
                    Some(rest) => Some(integers@ + rest),
                    None => None,
                }),
            decreases payload.len() - i,
        {
            let (_, rest) = payload.split_at(i);
            let (integer, length) = match decode_varint(rest) {
                Some(d) => d,
                None => return Err(VarintError),
            };
            proof {
                assert(rest@ == payload@.skip(i as int));
                assert(rest@.skip(length as int) =~= payload@.skip(i + length));
                assert(integers@ + (seq![integer] + spec_integers(payload@.skip(i + length)).unwrap_or(seq![]))
                    =~= integers@.push(integer) + spec_integers(payload@.skip(i + length)).unwrap_or(seq![]));
            }
            integers.push(integer);
            i = i + length;
        }
        proof {
            assert(payload@.skip(i as int) =~= Seq::<u8>::empty());
            assert(integers@ + seq![] =~= integers@);
        }
        Ok(integers)
    }
}

/// The outputs that a keepsake names lie in a transaction with `n` outputs: its
/// pointer and claim below `n`, each transfer's output at most `n` (`n` itself splits
/// among all of them).
pub open spec fn keepsake_fits(k: KeepsakeView, n: nat) -> bool {
    &&& (k.pointer matches Some(p) ==> p < n)
    &&& (k.claim matches Some(c) ==> c < n)
    &&& transfers_fit(k.transfers, n)
}

/// A keepsake deciphered from a transaction names only outputs that the transaction
/// has.
pub proof fn lemma_decipher_fits(scripts: Seq<Seq<u8>>)
    requires
        scripts.len() <= u32::MAX,
    ensures
        spec_decipher(scripts) matches Some(ArtifactView::Keepsake(k)) ==> keepsake_fits(k, scripts.len()),
{
    if let Some(PayloadView::Valid(p)) = spec_payload(scripts, 0) {
        if let Some(ints) = spec_integers(p) {
            lemma_message_fits(scripts.len(), ints, 0, Map::empty());
        }
    }
}

} // verus!
