use std::collections::{HashMap, VecDeque};
use vstd::prelude::*;

verus! {

broadcast use vstd::std_specs::hash::group_hash_axioms;

/// Keys of the fields of a keepsake message.
#[derive(Clone, Copy, Debug, PartialEq, Eq, Structural)]
pub enum Tag {
    Body,
    Flags,
    Pointer,
    Claim,
    Seed,
    Amount,
    Cap,
    Price,
    PriceFormulaA,
    PriceFormulaB,
    PriceFormulaC,
    MaxUnmints,
    BlockCap,
    TxCap,
    Fee,
    RareChance,
    RareMultiplierCap,
    UltraRareChance,
    UltraRareMultiplierCap,
    MultiMintCount,
    MultiMintBaseLimit,
    MultiMintRelic,
    MultiMintIsUnmint,
    SwapInput,
    SwapOutput,
    SwapInputAmount,
    SwapOutputAmount,
    Subsidy,
    Cenotaph,
    Symbol,
    Nop,
}

/// The fields of a message: the values of each tag in order.
pub type FieldsView = Map<u128, Seq<u128>>;

/// The fields that a map of deques holds.
pub open spec fn fields_view(fields: Map<u128, VecDeque<u128>>) -> FieldsView {
    Map::new(|k: u128| fields.dom().contains(k), |k: u128| fields[k]@)
}

/// The first `n` values of `tag`, where it has that many.
pub open spec fn peek(fields: FieldsView, tag: u128, n: nat) -> Option<Seq<u128>> {
    if fields.contains_key(tag) && fields[tag].len() >= n {
        Some(fields[tag].take(n as int))
    } else {
        None
    }
}

/// `fields` with the first `n` values of `tag` removed, and the tag with them
/// where none is left.
pub open spec fn consume(fields: FieldsView, tag: u128, n: nat) -> FieldsView {
    let rest = fields[tag].skip(n as int);
    if rest.len() == 0 {
        fields.remove(tag)
    } else {
        fields.insert(tag, rest)
    }
}

/// `fields` with `value` appended to the values of `tag`.
pub open spec fn push_field(fields: FieldsView, tag: u128, value: u128) -> FieldsView {
    if fields.contains_key(tag) {
        fields.insert(tag, fields[tag].push(value))
    } else {
        fields.insert(tag, seq![value])
    }
}

impl Tag {
    /// The number of a tag on the wire.
    pub open spec fn value(self) -> u128 {
        match self {
            Tag::Body => 0,
            Tag::Flags => 2,
            Tag::Pointer => 4,
            Tag::Claim => 6,
            Tag::Seed => 8,
            Tag::Amount => 10,
            Tag::Cap => 12,
            Tag::Price => 14,
            Tag::PriceFormulaA => 16,
            Tag::PriceFormulaB => 18,
            Tag::PriceFormulaC => 20,
            Tag::MaxUnmints => 24,
            Tag::BlockCap => 26,
            Tag::TxCap => 28,
            Tag::Fee => 30,
            Tag::RareChance => 32,
            Tag::RareMultiplierCap => 34,
            Tag::UltraRareChance => 36,
            Tag::UltraRareMultiplierCap => 38,
            Tag::MultiMintCount => 80,
            Tag::MultiMintBaseLimit => 82,
            Tag::MultiMintRelic => 84,
            Tag::MultiMintIsUnmint => 86,
            Tag::SwapInput => 90,
            Tag::SwapOutput => 92,
            Tag::SwapInputAmount => 94,
            Tag::SwapOutputAmount => 96,
            Tag::Subsidy => 98,
            Tag::Cenotaph => 126,
            Tag::Symbol => 5,
            Tag::Nop => 127,
        }
    }

    pub fn to_u128(self) -> (v: u128)
        ensures
            v == self.value(),
    {
        match self {
            Tag::Body => 0,
            Tag::Flags => 2,
            Tag::Pointer => 4,
            Tag::Claim => 6,
            Tag::Seed => 8,
            Tag::Amount => 10,
            Tag::Cap => 12,
            Tag::Price => 14,
            Tag::PriceFormulaA => 16,
            Tag::PriceFormulaB => 18,
            Tag::PriceFormulaC => 20,
            Tag::MaxUnmints => 24,
            Tag::BlockCap => 26,
            Tag::TxCap => 28,
            Tag::Fee => 30,
            Tag::RareChance => 32,
            Tag::RareMultiplierCap => 34,
            Tag::UltraRareChance => 36,
            Tag::UltraRareMultiplierCap => 38,
            Tag::MultiMintCount => 80,
            Tag::MultiMintBaseLimit => 82,
            Tag::MultiMintRelic => 84,
            Tag::MultiMintIsUnmint => 86,
            Tag::SwapInput => 90,
            Tag::SwapOutput => 92,
            Tag::SwapInputAmount => 94,
            Tag::SwapOutputAmount => 96,
            Tag::Subsidy => 98,
            Tag::Cenotaph => 126,
            Tag::Symbol => 5,
            Tag::Nop => 127,
        }
    }

    /// Takes the first `N` values of this tag from `fields` and hands them to
    /// `with`; the values leave `fields` only where `with` returns a value.
    pub fn take<const N: usize, T>(
        self,
        fields: &mut HashMap<u128, VecDeque<u128>>,
        with: impl Fn([u128; N]) -> Option<T>,
    ) -> (r: Option<T>)
        requires
            forall|a: [u128; N]| #[trigger] call_requires(with, (a,)),
        ensures
            ({
                let before = fields_view(old(fields)@);
                let key = self.value();
                match r {
                    Some(v) => peek(before, key, N as nat) matches Some(vals) && fields_view(
                        final(fields)@,
                    ) == consume(before, key, N as nat) && exists|a: [u128; N]|
                        a@ == vals && #[trigger] call_ensures(with, (a,), Some(v)),
                    None => fields_view(final(fields)@) == before && (peek(
                        before,
                        key,
                        N as nat,
                    ) matches Some(vals) ==> exists|a: [u128; N]|
                        a@ == vals && #[trigger] call_ensures(with, (a,), None)),
                }
            }),
    {
        let key = self.to_u128();
        let vals = match peek_values(fields, key, N) {
            Some(v) => v,
            None => return None,
        };
        let mut values: [u128; N] = vstd::array::array_fill_for_copy_types(0u128);
        let mut i: usize = 0;
        while i < N
            invariant
                i <= N,
                vals@.len() == N,
                values@.len() == N,
                forall|j: int| 0 <= j < i ==> values@[j] == vals@[j],
            decreases N - i,
        {
            values[i] = vals[i];
            i = i + 1;
        }
        assert(values@ =~= vals@);
        let value = match with(values) {
            Some(v) => v,
            None => return None,
        };
        consume_values(fields, key, N);
        Some(value)
    }
}

/// The first `n` values of `tag` in `fields`, where it has that many.
pub fn peek_values(fields: &HashMap<u128, VecDeque<u128>>, tag: u128, n: usize) -> (r: Option<
    Vec<u128>,
>)
    ensures
        r matches Some(v) ==> peek(fields_view(fields@), tag, n as nat) == Some(v@),
        r is None <==> peek(fields_view(fields@), tag, n as nat) is None,
{
    let field = match fields.get(&tag) {
        Some(f) => f,
        None => return None,
    };
    if field.len() < n {
        return None;
    }
    let mut values: Vec<u128> = Vec::new();
    let mut i: usize = 0;
    while i < n
        invariant
            i <= n,
            n <= field@.len(),
            fields@.contains_key(tag),
            fields@[tag] == *field,
            values@ =~= field@.take(i as int),
        decreases n - i,
    {
        values.push(field[i]);
        i = i + 1;
    }
    proof {
        assert(fields_view(fields@)[tag] == field@);
    }
    Some(values)
}

/// Removes the first `n` values of `tag` from `fields`, and the tag with them
/// where none is left.
pub fn consume_values(fields: &mut HashMap<u128, VecDeque<u128>>, tag: u128, n: usize)
    requires
        peek(fields_view(old(fields)@), tag, n as nat) is Some,
    ensures
        fields_view(final(fields)@) == consume(fields_view(old(fields)@), tag, n as nat),
{
    let ghost before = fields_view(fields@);
    let mut field = match fields.remove(&tag) {
        Some(f) => f,
        None => return ,
    };
    assert(field@ == before[tag]);
    let mut i: usize = 0;
    while i < n
        invariant
            i <= n,
            n <= before[tag].len(),
            field@ == before[tag].skip(i as int),
        decreases n - i,
    {
        let _ = field.pop_front();
        i = i + 1;
        assert(field@ =~= before[tag].skip(i as int));
    }
    if field.len() > 0 {
        fields.insert(tag, field);
        assert(fields_view(fields@) =~= consume(before, tag, n as nat));
    } else {
        assert(fields_view(fields@) =~= consume(before, tag, n as nat));
    }
}

/// Appends `value` to the values of `tag`.
pub fn push_value(fields: &mut HashMap<u128, VecDeque<u128>>, tag: u128, value: u128)
    ensures
        fields_view(final(fields)@) == push_field(fields_view(old(fields)@), tag, value),
{
    let ghost before = fields_view(fields@);
    let mut field = match fields.remove(&tag) {
        Some(f) => f,
        None => VecDeque::new(),
    };
    field.push_back(value);
    fields.insert(tag, field);
    assert(fields_view(fields@) =~= push_field(before, tag, value));
}

impl From<Tag> for u128 {
    fn from(tag: Tag) -> (v: u128)
        ensures
            v == tag.value(),
    {
        tag.to_u128()
    }
}

impl vstd::std_specs::convert::FromSpecImpl<Tag> for u128 {
    open spec fn obeys_from_spec() -> bool {
        true
    }

    open spec fn from_spec(tag: Tag) -> u128 {
        tag.value()
    }
}

impl PartialEq<u128> for Tag {
    fn eq(&self, other: &u128) -> (r: bool) {
        self.to_u128() == *other
    }
}

impl vstd::std_specs::cmp::PartialEqSpecImpl<u128> for Tag {
    open spec fn obeys_eq_spec() -> bool {
        true
    }

    open spec fn eq_spec(&self, other: &u128) -> bool {
        self.value() == *other
    }
}

} // verus!
