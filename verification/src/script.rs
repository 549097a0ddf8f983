use bitcoin::opcodes::Opcode;
use bitcoin::script::{Instruction as ScriptInstruction, PushBytes, Script, ScriptBuf};
use vstd::prelude::*;

verus! {

/// One item of a script, as a parser of scripts yields it.
#[derive(Clone, Debug, PartialEq, Eq)]
pub enum Instruction {
    /// A non-push opcode.
    Op(u8),
    /// A data push.
    PushBytes(Vec<u8>),
    /// The script does not parse from here on.
    Invalid,
}

/// The mathematical form of an [`Instruction`].
pub enum InstructionView {
    Op(u8),
    PushBytes(Seq<u8>),
    Invalid,
}

impl View for Instruction {
    type V = InstructionView;

    open spec fn view(&self) -> InstructionView {
        match self {
            Instruction::Op(op) => InstructionView::Op(*op),
            Instruction::PushBytes(bytes) => InstructionView::PushBytes(bytes@),
            Instruction::Invalid => InstructionView::Invalid,
        }
    }
}

/// The items that `bitcoin::Script::instructions` yields for the given script bytes,
/// in order, an error as `Invalid`.
pub uninterp spec fn script_instructions(script: Seq<u8>) -> Seq<InstructionView>;

/// What `ordinals::varint::decode` returns for a buffer: the integer and the number of
/// bytes it took, or `None` where it returns an error.
pub uninterp spec fn varint_decode(buffer: Seq<u8>) -> Option<(u128, usize)>;

/// The bytes that `ordinals::varint::encode_to_vec` appends for an integer: seven
/// bits at a time, lowest first, each byte but the last with its high bit set.
pub open spec fn varint_encoding(n: u128) -> Seq<u8>
    decreases n,
{
    if n < 128 {
        seq![n as u8]
    } else {
        seq![((n % 128) + 128) as u8] + varint_encoding((n / 128) as u128)
    }
}

/// Parses a script with `bitcoin::Script::instructions`, mapping each item to an
/// [`Instruction`]. Claimed: the result is the named parse of the bytes.
#[verifier::external_body]
pub(crate) fn instructions(script: &[u8]) -> (r: Vec<Instruction>)
    ensures
        r@.map_values(|i: Instruction| i@) == script_instructions(script@),
{
    Script::from_bytes(script).instructions().map(|item| match item {
        Ok(ScriptInstruction::Op(op)) => Instruction::Op(op.to_u8()),
        Ok(ScriptInstruction::PushBytes(push)) => Instruction::PushBytes(push.as_bytes().to_vec()),
        Err(_) => Instruction::Invalid,
    }).collect()
}

/// Decodes one varint with `ordinals::varint::decode`. Claimed: the result is the
/// named decoding, and a decoded integer takes at least one and at most all bytes
/// of the buffer (the function returns `i + 1` for an index `i` of the buffer).
#[verifier::external_body]
pub(crate) fn decode_varint(buffer: &[u8]) -> (r: Option<(u128, usize)>)
    ensures
        r == varint_decode(buffer@),
        r matches Some((_, len)) ==> 1 <= len <= buffer@.len(),
{
    ordinals::varint::decode(buffer).ok()
}

/// Appends the varint encoding of `n` with `ordinals::varint::encode_to_vec`.
/// Claimed: the appended bytes are `varint_encoding(n)`, one to nineteen bytes (seven
/// bits of `n` each), and decoding them, whatever follows, gives back `n` and their
/// length (the encoder ends on the one byte without the continuation bit and never
/// sets the overflow bits that the decoder rejects).
#[verifier::external_body]
pub(crate) fn encode_varint(n: u128, v: &mut Vec<u8>)
    ensures
        final(v)@ == old(v)@ + varint_encoding(n),
        final(v)@.len() > old(v)@.len(),
        final(v)@.len() <= old(v)@.len() + 19,
        forall|rest: Seq<u8>|
            #[trigger] varint_decode(final(v)@.skip(old(v)@.len() as int) + rest) == Some(
                (n, (final(v)@.len() - old(v)@.len()) as usize),
            ),
{
    ordinals::varint::encode_to_vec(n, v)
}

/// `char::from_u32`: the character with the given scalar value, if it is one
/// (a value up to `0x10FFFF` outside the surrogates `0xD800..=0xDFFF`).
#[verifier::external_body]
pub(crate) fn char_from_u32(v: u32) -> (c: Option<char>)
    ensures
        c is Some <==> (v <= 0xD7FF || (0xE000 <= v && v <= 0x10FFFF)),
        c matches Some(ch) ==> ch as u32 == v && ch == (v as char),
{
    char::from_u32(v)
}

/// The opcode that introduces a data push of `len` bytes, with the length bytes
/// that follow it: the length itself below 76, else `OP_PUSHDATA1`, `OP_PUSHDATA2`
/// or `OP_PUSHDATA4` with a little-endian length of one, two or four bytes.
pub open spec fn push_prefix(len: nat) -> Seq<u8> {
    if len < 0x4c {
        seq![len as u8]
    } else if len < 0x100 {
        seq![0x4cu8, len as u8]
    } else if len < 0x10000 {
        seq![0x4du8, (len % 0x100) as u8, (len / 0x100) as u8]
    } else {
        seq![
            0x4eu8,
            (len % 0x100) as u8,
            ((len / 0x100) % 0x100) as u8,
            ((len / 0x10000) % 0x100) as u8,
            (len / 0x1000000) as u8,
        ]
    }
}

/// Every item of the script parses.
pub open spec fn parses_cleanly(script: Seq<u8>) -> bool {
    !script_instructions(script).contains(InstructionView::Invalid)
}

/// Appends an opcode with `bitcoin::ScriptBuf::push_opcode`. Claimed, as its source
/// shows: the byte is appended; and an opcode above `OP_PUSHDATA4` (0x4e) appended
/// to an empty script, or to one whose items all parse, parses as one more opcode
/// (the parser reads items one after the other from the start).
#[verifier::external_body]
pub(crate) fn push_opcode(script: &mut Vec<u8>, op: u8)
    ensures
        final(script)@ == old(script)@.push(op),
        op > 0x4e && old(script)@.len() == 0 ==> script_instructions(final(script)@) == seq![
            InstructionView::Op(op),
        ],
        op > 0x4e && parses_cleanly(old(script)@) ==> script_instructions(final(script)@)
            == script_instructions(old(script)@).push(InstructionView::Op(op)),
{
    let mut built = ScriptBuf::from_bytes(std::mem::take(script));
    built.push_opcode(Opcode::from(op));
    *script = built.into_bytes();
}

/// Appends a data push with `bitcoin::ScriptBuf::push_slice`. Claimed, as its source
/// shows: the push prefix and the data are appended; and appended to a script whose
/// items all parse, the push parses as one more item holding the data.
#[verifier::external_body]
pub(crate) fn push_slice(script: &mut Vec<u8>, data: &[u8])
    requires
        data@.len() < 0x1_0000_0000,
    ensures
        final(script)@ == old(script)@ + push_prefix(data@.len()) + data@,
        parses_cleanly(old(script)@) ==> script_instructions(final(script)@) == script_instructions(
            old(script)@,
        ).push(InstructionView::PushBytes(data@)),
{
    let push: &PushBytes = data.try_into().unwrap();
    let mut built = ScriptBuf::from_bytes(std::mem::take(script));
    built.push_slice(push);
    *script = built.into_bytes();
}

} // verus!
