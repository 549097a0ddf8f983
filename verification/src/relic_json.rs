//! Reading a relic's record from the JSON that the index server answers with: the
//! members are looked up by name, numbers are read from their decimal text, and the
//! mint terms are read member by member.
use crate::enshrining::{MintTerms, PriceModel};
use crate::entry::RelicState;
use crate::relic_id::RelicId;
use crate::txid::{parse_txid, spec_parse_txid, Txid};
use crate::spaced_relic::{spec_parse_name, Relic, SpacedRelic};
use std::str::FromStr;
use vstd::prelude::*;

verus! {

/// A JSON value, with each number kept as the text it is written with.
#[derive(Debug)]
pub enum JsonValue {
    Null,
    Bool(bool),
    Number(String),
    Text(String),
    Array(Vec<JsonValue>),
    Object(Vec<(String, JsonValue)>),
}

/// The members that a relic's record is read from.
#[derive(Clone, Copy, Debug, PartialEq, Eq, Structural)]
pub enum JsonField {
    Id,
    Owner,
    Block,
    Enshrining,
    Fee,
    Number,
    Timestamp,
    Mintable,
    SpacedRelic,
    MintTerms,
    Amount,
    BlockCap,
    Cap,
    MaxUnmints,
    Price,
    Seed,
    TxCap,
    A,
    B,
    C,
    State,
    Burned,
    Mints,
    Unmints,
    OwnerSequenceNumber,
    Symbol,
}

/// Why a relic's record cannot be read.
#[derive(Clone, Copy, Debug, PartialEq, Eq, Structural)]
pub enum JsonError {
    /// The member is missing or not of the kind it must be.
    MissingOrInvalid(JsonField),
    /// A member of a price formula is missing.
    Missing(JsonField),
    /// A number that is not a `u128`.
    InvalidU128,
    /// A string that is not a `u128`.
    InvalidU128String,
    /// Neither a number nor a string where an amount is expected.
    ExpectedNumber,
    /// An amount above `u32::MAX`.
    ExceedsU32,
    /// An amount above `u8::MAX`.
    ExceedsU8,
    /// A price that is neither an amount nor a formula.
    InvalidPriceModel,
    /// The id is not written `block:tx`.
    InvalidRelicId,
    /// The enshrining transaction's id is not a transaction id.
    InvalidTxid,
    /// The fee does not fit in a `u16`.
    InvalidFee,
    /// The name is not a spaced relic name.
    InvalidSpacedRelic,
    /// The state is not three counts (burned, mints, unmints), as an object with
    /// those members or as an array.
    InvalidState,
}

/// The name of a member.
pub open spec fn key_of(f: JsonField) -> Seq<char> {
    match f {
        JsonField::Id => "id"@,
        JsonField::Owner => "owner"@,
        JsonField::Block => "block"@,
        JsonField::Enshrining => "enshrining"@,
        JsonField::Fee => "fee"@,
        JsonField::Number => "number"@,
        JsonField::Timestamp => "timestamp"@,
        JsonField::Mintable => "mintable"@,
        JsonField::SpacedRelic => "spaced_relic"@,
        JsonField::MintTerms => "mint_terms"@,
        JsonField::Amount => "amount"@,
        JsonField::BlockCap => "block_cap"@,
        JsonField::Cap => "cap"@,
        JsonField::MaxUnmints => "max_unmints"@,
        JsonField::Price => "price"@,
        JsonField::Seed => "seed"@,
        JsonField::TxCap => "tx_cap"@,
        JsonField::A => "a"@,
        JsonField::B => "b"@,
        JsonField::C => "c"@,
        JsonField::State => "state"@,
        JsonField::Burned => "burned"@,
        JsonField::Mints => "mints"@,
        JsonField::Unmints => "unmints"@,
        JsonField::OwnerSequenceNumber => "owner_sequence_number"@,
        JsonField::Symbol => "symbol"@,
    }
}

fn key_str(f: JsonField) -> (r: &'static str)
    ensures
        r@ == key_of(f),
{
    match f {
        JsonField::Id => "id",
        JsonField::Owner => "owner",
        JsonField::Block => "block",
        JsonField::Enshrining => "enshrining",
        JsonField::Fee => "fee",
        JsonField::Number => "number",
        JsonField::Timestamp => "timestamp",
        JsonField::Mintable => "mintable",
        JsonField::SpacedRelic => "spaced_relic",
        JsonField::MintTerms => "mint_terms",
        JsonField::Amount => "amount",
        JsonField::BlockCap => "block_cap",
        JsonField::Cap => "cap",
        JsonField::MaxUnmints => "max_unmints",
        JsonField::Price => "price",
        JsonField::Seed => "seed",
        JsonField::TxCap => "tx_cap",
        JsonField::A => "a",
        JsonField::B => "b",
        JsonField::C => "c",
        JsonField::State => "state",
        JsonField::Burned => "burned",
        JsonField::Mints => "mints",
        JsonField::Unmints => "unmints",
        JsonField::OwnerSequenceNumber => "owner_sequence_number",
        JsonField::Symbol => "symbol",
    }
}

/// The value of the first member with the given name.
pub open spec fn first_member(members: Seq<(String, JsonValue)>, key: Seq<char>) -> Option<JsonValue>
    decreases members.len(),
{
    if members.len() == 0 {
        None
    } else if members[0].0@ == key {
        Some(members[0].1)
    } else {
        first_member(members.drop_first(), key)
    }
}

/// The value of the member `f`, where the value is an object that has one.
pub open spec fn member(v: JsonValue, f: JsonField) -> Option<JsonValue> {
    match v {
        JsonValue::Object(members) => first_member(members@, key_of(f)),
        _ => None,
    }
}

fn same_chars(a: &str, b: &str) -> (r: bool)
    ensures
        r == (a@ == b@),
{
    let n = a.unicode_len();
    if n != b.unicode_len() {
        return false;
    }
    let mut i: usize = 0;
    while i < n
        invariant
            i <= n,
            n == a@.len(),
            n == b@.len(),
            forall|j: int| 0 <= j < i ==> a@[j] == b@[j],
        decreases n - i,
    {
        if a.get_char(i) != b.get_char(i) {
            return false;
        }
        i = i + 1;
    }
    proof {
        assert(a@ =~= b@);
    }
    true
}

pub open spec fn deref_opt(o: Option<&JsonValue>) -> Option<JsonValue> {
    match o {
        Some(x) => Some(*x),
        None => None,
    }
}

/// The value of the member `f` of an object.
fn get(v: &JsonValue, f: JsonField) -> (r: Option<&JsonValue>)
    ensures
        deref_opt(r) == member(*v, f),
{
    let members = match v {
        JsonValue::Object(members) => members,
        _ => return None,
    };
    let key = key_str(f);
    let mut i: usize = 0;
    proof {
        assert(members@.skip(0) =~= members@);
    }
    while i < members.len()
        invariant
            i <= members@.len(),
            key@ == key_of(f),
            *v == JsonValue::Object(*members),
            first_member(members@, key_of(f)) == first_member(members@.skip(i as int), key_of(f)),
        decreases members@.len() - i,
    {
        proof {
            assert(members@.skip(i as int).drop_first() =~= members@.skip(i + 1));
            assert(members@.skip(i as int)[0] == members@[i as int]);
        }
        if same_chars(members[i].0.as_str(), key) {
            return Some(&members[i].1);
        }
        i = i + 1;
    }
    proof {
        assert(members@.skip(i as int).len() == 0);
    }
    None
}

/// A decimal digit.
pub open spec fn is_digit(c: char) -> bool {
    '0' <= c <= '9'
}

/// The number that decimal digits spell.
pub open spec fn digits_value(s: Seq<char>) -> nat
    decreases s.len(),
{
    if s.len() == 0 {
        0
    } else {
        digits_value(s.drop_last()) * 10 + (s.last() as nat - '0' as nat) as nat
    }
}

/// The digits of a decimal number, after one optional `+`.
pub open spec fn unsigned_digits(s: Seq<char>) -> Seq<char> {
    if s.len() > 0 && s[0] == '+' {
        s.drop_first()
    } else {
        s
    }
}

/// What parsing the text as a `u128` gives: one optional `+`, then at least one
/// decimal digit and nothing else, for a value that fits.
pub open spec fn spec_parse_u128(s: Seq<char>) -> Option<u128> {
    let d = unsigned_digits(s);
    if d.len() > 0 && (forall|i: int| 0 <= i < d.len() ==> #[trigger] is_digit(d[i])) && digits_value(d)
        <= u128::MAX {
        Some(digits_value(d) as u128)
    } else {
        None
    }
}

proof fn lemma_digits_value_prefix(d: Seq<char>, t: int)
    requires
        0 <= t <= d.len(),
        forall|i: int| 0 <= i < d.len() ==> #[trigger] is_digit(d[i]),
    ensures
        digits_value(d.take(t)) <= digits_value(d),
    decreases d.len() - t,
{
    if t < d.len() {
        lemma_digits_value_prefix(d, t + 1);
        assert(d.take(t + 1).drop_last() =~= d.take(t));
        assert(is_digit(d[t]));
    } else {
        assert(d.take(t) =~= d);
    }
}

/// Parses the characters `from..to` of the text as a `u128` (as `str::parse` does).
fn parse_u128_in(s: &str, from: usize, to: usize) -> (r: Option<u128>)
    requires
        from <= to <= s@.len(),
    ensures
        r == spec_parse_u128(s@.subrange(from as int, to as int)),
{
    let ghost t = s@.subrange(from as int, to as int);
    let mut start: usize = from;
    if from < to && s.get_char(from) == '+' {
        start = from + 1;
    }
    let ghost d = unsigned_digits(t);
    proof {
        if start == from + 1 {
            assert(d =~= s@.subrange(start as int, to as int));
        } else {
            assert(d =~= s@.subrange(start as int, to as int));
        }
    }
    if start == to {
        return None;
    }
    let mut acc: u128 = 0;
    let mut i: usize = start;
    while i < to
        invariant
            from <= start <= i <= to,
            to <= s@.len(),
            t == s@.subrange(from as int, to as int),
            d == s@.subrange(start as int, to as int),
            d == unsigned_digits(t),
            forall|j: int| 0 <= j < i - start ==> #[trigger] is_digit(d[j]),
            acc == digits_value(d.take(i - start)),
        decreases to - i,
    {
        let c = s.get_char(i);
        proof {
            assert(d[i - start] == c);
            assert(d.take(i - start + 1).drop_last() =~= d.take(i - start));
            assert(d.take(i - start + 1).last() == c);
        }
        if !('0' <= c && c <= '9') {
            proof {
                assert(!is_digit(d[i - start]));
            }
            return None;
        }
        let digit = ((c as u32) - ('0' as u32)) as u128;
        proof {
            assert(digit == (c as nat - '0' as nat));
            assert(digits_value(d.take(i - start + 1)) == acc * 10 + digit);
        }
        if acc > (u128::MAX - digit) / 10 {
            proof {
                assert(acc * 10 + digit > u128::MAX) by (nonlinear_arith)
                    requires
                        acc > (u128::MAX - digit) / 10,
                        digit <= 9,
                ;
                if forall|j: int| 0 <= j < d.len() ==> #[trigger] is_digit(d[j]) {
                    lemma_digits_value_prefix(d, i - start + 1);
                }
            }
            return None;
        }
        proof {
            assert(acc * 10 + digit <= u128::MAX) by (nonlinear_arith)
                requires
                    acc <= (u128::MAX - digit) / 10,
                    digit <= 9,
            ;
        }
        acc = acc * 10 + digit;
        i = i + 1;
    }
    proof {
        assert(d.take(i - start) =~= d);
    }
    Some(acc)
}

/// Parses the text as a `u128` (as `str::parse` does).
pub fn parse_u128(s: &str) -> (r: Option<u128>)
    ensures
        r == spec_parse_u128(s@),
{
    let n = s.unicode_len();
    proof {
        assert(s@.subrange(0, n as int) =~= s@);
    }
    parse_u128_in(s, 0, n)
}

/// The text of a string value.
pub open spec fn spec_text(v: Option<JsonValue>) -> Option<Seq<char>> {
    match v {
        Some(JsonValue::Text(t)) => Some(t@),
        _ => None,
    }
}

/// A number that is a `u64`: written in decimal digits alone, and small enough.
pub open spec fn spec_u64(v: Option<JsonValue>) -> Option<u64> {
    match v {
        Some(JsonValue::Number(t)) => if t@.len() > 0 && t@[0] != '+' {
            match spec_parse_u128(t@) {
                Some(n) => if n <= u64::MAX {
                    Some(n as u64)
                } else {
                    None
                },
                None => None,
            }
        } else {
            None
        },
        _ => None,
    }
}

/// A boolean value.
pub open spec fn spec_bool(v: Option<JsonValue>) -> Option<bool> {
    match v {
        Some(JsonValue::Bool(b)) => Some(b),
        _ => None,
    }
}

/// An amount, written as a number or as a string.
pub open spec fn spec_amount(v: JsonValue) -> Result<u128, JsonError> {
    match v {
        JsonValue::Number(t) => match spec_parse_u128(t@) {
            Some(n) => Ok(n),
            None => Err(JsonError::InvalidU128),
        },
        JsonValue::Text(t) => match spec_parse_u128(t@) {
            Some(n) => Ok(n),
            None => Err(JsonError::InvalidU128String),
        },
        _ => Err(JsonError::ExpectedNumber),
    }
}

/// An amount that may be missing or `null`.
pub open spec fn spec_opt_amount(v: Option<JsonValue>) -> Result<Option<u128>, JsonError> {
    match v {
        None => Ok(None),
        Some(JsonValue::Null) => Ok(None),
        Some(x) => match spec_amount(x) {
            Ok(n) => Ok(Some(n)),
            Err(e) => Err(e),
        },
    }
}

/// An amount that may be missing or `null`, and fits in a `u32`.
pub open spec fn spec_opt_u32(v: Option<JsonValue>) -> Result<Option<u32>, JsonError> {
    match spec_opt_amount(v) {
        Ok(Some(n)) => if n <= u32::MAX {
            Ok(Some(n as u32))
        } else {
            Err(JsonError::ExceedsU32)
        },
        Ok(None) => Ok(None),
        Err(e) => Err(e),
    }
}

/// An amount that may be missing or `null`, and fits in a `u8`.
pub open spec fn spec_opt_u8(v: Option<JsonValue>) -> Result<Option<u8>, JsonError> {
    match spec_opt_amount(v) {
        Ok(Some(n)) => if n <= u8::MAX {
            Ok(Some(n as u8))
        } else {
            Err(JsonError::ExceedsU8)
        },
        Ok(None) => Ok(None),
        Err(e) => Err(e),
    }
}

/// A formula's term `f`, which must be there.
pub open spec fn spec_term(o: JsonValue, f: JsonField) -> Result<u128, JsonError> {
    match member(o, f) {
        None => Err(JsonError::Missing(f)),
        Some(x) => spec_amount(x),
    }
}

/// A price: missing or `null`; an amount, for a fixed price; or an object with the
/// terms `a`, `b` and `c` of a formula.
pub open spec fn spec_price(v: Option<JsonValue>) -> Result<Option<PriceModel>, JsonError> {
    match v {
        None => Ok(None),
        Some(JsonValue::Null) => Ok(None),
        Some(JsonValue::Number(t)) => match spec_amount(JsonValue::Number(t)) {
            Ok(n) => Ok(Some(PriceModel::Fixed(n))),
            Err(e) => Err(e),
        },
        Some(JsonValue::Text(t)) => match spec_amount(JsonValue::Text(t)) {
            Ok(n) => Ok(Some(PriceModel::Fixed(n))),
            Err(e) => Err(e),
        },
        Some(JsonValue::Object(m)) => {
            let o = JsonValue::Object(m);
            match spec_term(o, JsonField::A) {
                Err(e) => Err(e),
                Ok(a) => match spec_term(o, JsonField::B) {
                    Err(e) => Err(e),
                    Ok(b) => match spec_term(o, JsonField::C) {
                        Err(e) => Err(e),
                        Ok(c) => Ok(Some(PriceModel::Formula { a, b, c })),
                    },
                },
            }
        },
        _ => Err(JsonError::InvalidPriceModel),
    }
}

/// Mint terms: read member by member where the value is an object, none otherwise.
pub open spec fn spec_mint_terms(v: Option<JsonValue>) -> Result<Option<MintTerms>, JsonError> {
    match v {
        Some(JsonValue::Object(m)) => {
            let o = JsonValue::Object(m);
            match spec_opt_amount(member(o, JsonField::Amount)) {
                Err(e) => Err(e),
                Ok(amount) => match spec_opt_u32(member(o, JsonField::BlockCap)) {
                    Err(e) => Err(e),
                    Ok(block_cap) => match spec_opt_amount(member(o, JsonField::Cap)) {
                        Err(e) => Err(e),
                        Ok(cap) => match spec_opt_u32(member(o, JsonField::MaxUnmints)) {
                            Err(e) => Err(e),
                            Ok(max_unmints) => match spec_price(member(o, JsonField::Price)) {
                                Err(e) => Err(e),
                                Ok(price) => match spec_opt_amount(member(o, JsonField::Seed)) {
                                    Err(e) => Err(e),
                                    Ok(seed) => match spec_opt_u8(member(o, JsonField::TxCap)) {
                                        Err(e) => Err(e),
                                        Ok(tx_cap) => Ok(
                                            Some(
                                                MintTerms {
                                                    amount,
                                                    block_cap,
                                                    cap,
                                                    max_unmints,
                                                    price,
                                                    seed,
                                                    tx_cap,
                                                },
                                            ),
                                        ),
                                    },
                                },
                            },
                        },
                    },
                },
            }
        },
        _ => Ok(None),
    }
}

/// The text of the string member `f`.
fn get_text(v: &JsonValue, f: JsonField) -> (r: Option<String>)
    ensures
        r matches Some(t) ==> spec_text(member(*v, f)) == Some(t@),
        r is None ==> spec_text(member(*v, f)) is None,
{
    match get(v, f) {
        Some(JsonValue::Text(t)) => Some(t.clone()),
        _ => None,
    }
}

/// The member `f`, where it is a `u64`.
fn get_u64(v: &JsonValue, f: JsonField) -> (r: Option<u64>)
    ensures
        r == spec_u64(member(*v, f)),
{
    number_u64(get(v, f))
}

/// The value, where it is a number that is a `u64`.
fn number_u64(v: Option<&JsonValue>) -> (r: Option<u64>)
    ensures
        r == spec_u64(deref_opt(v)),
{
    match v {
        Some(JsonValue::Number(t)) => {
            let text = t.as_str();
            if text.unicode_len() == 0 || text.get_char(0) == '+' {
                return None;
            }
            match parse_u128(text) {
                Some(n) => if n <= u64::MAX as u128 {
                    Some(n as u64)
                } else {
                    None
                },
                None => None,
            }
        },
        _ => None,
    }
}

/// The member `f`, where it is a boolean.
fn get_bool(v: &JsonValue, f: JsonField) -> (r: Option<bool>)
    ensures
        r == spec_bool(member(*v, f)),
{
    match get(v, f) {
        Some(JsonValue::Bool(b)) => Some(*b),
        _ => None,
    }
}

/// Reads an amount, written as a number or as a string.
pub fn amount(v: &JsonValue) -> (r: Result<u128, JsonError>)
    ensures
        r == spec_amount(*v),
{
    match v {
        JsonValue::Number(t) => match parse_u128(t.as_str()) {
            Some(n) => Ok(n),
            None => Err(JsonError::InvalidU128),
        },
        JsonValue::Text(t) => match parse_u128(t.as_str()) {
            Some(n) => Ok(n),
            None => Err(JsonError::InvalidU128String),
        },
        _ => Err(JsonError::ExpectedNumber),
    }
}

fn opt_amount(v: Option<&JsonValue>) -> (r: Result<Option<u128>, JsonError>)
    ensures
        r == spec_opt_amount(deref_opt(v)),
{
    match v {
        None => Ok(None),
        Some(JsonValue::Null) => Ok(None),
        Some(x) => match amount(x) {
            Ok(n) => Ok(Some(n)),
            Err(e) => Err(e),
        },
    }
}

fn opt_u32(v: Option<&JsonValue>) -> (r: Result<Option<u32>, JsonError>)
    ensures
        r == spec_opt_u32(deref_opt(v)),
{
    match opt_amount(v) {
        Ok(Some(n)) => if n <= u32::MAX as u128 {
            Ok(Some(n as u32))
        } else {
            Err(JsonError::ExceedsU32)
        },
        Ok(None) => Ok(None),
        Err(e) => Err(e),
    }
}

fn opt_u8(v: Option<&JsonValue>) -> (r: Result<Option<u8>, JsonError>)
    ensures
        r == spec_opt_u8(deref_opt(v)),
{
    match opt_amount(v) {
        Ok(Some(n)) => if n <= u8::MAX as u128 {
            Ok(Some(n as u8))
        } else {
            Err(JsonError::ExceedsU8)
        },
        Ok(None) => Ok(None),
        Err(e) => Err(e),
    }
}

fn term(o: &JsonValue, f: JsonField) -> (r: Result<u128, JsonError>)
    ensures
        r == spec_term(*o, f),
{
    match get(o, f) {
        None => Err(JsonError::Missing(f)),
        Some(x) => amount(x),
    }
}

/// Reads a price: a fixed amount, or a formula's terms `a`, `b` and `c`.
pub fn price(v: Option<&JsonValue>) -> (r: Result<Option<PriceModel>, JsonError>)
    ensures
        r == spec_price(deref_opt(v)),
{
    match v {
        None => Ok(None),
        Some(JsonValue::Null) => Ok(None),
        Some(JsonValue::Number(_)) | Some(JsonValue::Text(_)) => match amount(v.unwrap()) {
            Ok(n) => Ok(Some(PriceModel::Fixed(n))),
            Err(e) => Err(e),
        },
        Some(JsonValue::Object(_)) => {
            let o = v.unwrap();
            let a = match term(o, JsonField::A) {
                Ok(a) => a,
                Err(e) => return Err(e),
            };
            let b = match term(o, JsonField::B) {
                Ok(b) => b,
                Err(e) => return Err(e),
            };
            let c = match term(o, JsonField::C) {
                Ok(c) => c,
                Err(e) => return Err(e),
            };
            Ok(Some(PriceModel::Formula { a, b, c }))
        },
        _ => Err(JsonError::InvalidPriceModel),
    }
}

/// Reads mint terms, member by member, where the value is an object.
pub fn mint_terms(v: Option<&JsonValue>) -> (r: Result<Option<MintTerms>, JsonError>)
    ensures
        r == spec_mint_terms(deref_opt(v)),
{
    let o = match v {
        Some(JsonValue::Object(_)) => v.unwrap(),
        _ => return Ok(None),
    };
    let amount = match opt_amount(get(o, JsonField::Amount)) {
        Ok(x) => x,
        Err(e) => return Err(e),
    };
    let block_cap = match opt_u32(get(o, JsonField::BlockCap)) {
        Ok(x) => x,
        Err(e) => return Err(e),
    };
    let cap = match opt_amount(get(o, JsonField::Cap)) {
        Ok(x) => x,
        Err(e) => return Err(e),
    };
    let max_unmints = match opt_u32(get(o, JsonField::MaxUnmints)) {
        Ok(x) => x,
        Err(e) => return Err(e),
    };
    let price = match price(get(o, JsonField::Price)) {
        Ok(x) => x,
        Err(e) => return Err(e),
    };
    let seed = match opt_amount(get(o, JsonField::Seed)) {
        Ok(x) => x,
        Err(e) => return Err(e),
    };
    let tx_cap = match opt_u8(get(o, JsonField::TxCap)) {
        Ok(x) => x,
        Err(e) => return Err(e),
    };
    Ok(Some(MintTerms { amount, block_cap, cap, max_unmints, price, seed, tx_cap }))
}

/// `p` is where the first `:` stands.
pub open spec fn colon_at(s: Seq<char>, p: int) -> bool {
    0 <= p < s.len() && s[p] == ':' && forall|j: int| 0 <= j < p ==> s[j] != ':'
}

/// A relic id written `block:tx`, each part a number that fits its type.
pub open spec fn spec_parse_relic_id(s: Seq<char>) -> Option<RelicId> {
    if exists|p: int| colon_at(s, p) {
        let p = choose|p: int| colon_at(s, p);
        match (spec_parse_u128(s.take(p)), spec_parse_u128(s.skip(p + 1))) {
            (Some(b), Some(t)) => if b <= u64::MAX && t <= u32::MAX {
                Some(RelicId { block: b as u64, tx: t as u32 })
            } else {
                None
            },
            _ => None,
        }
    } else {
        None
    }
}

/// Parses a relic id written `block:tx`.
pub fn parse_relic_id(s: &str) -> (r: Option<RelicId>)
    ensures
        r == spec_parse_relic_id(s@),
{
    let n = s.unicode_len();
    let mut p: usize = 0;
    while p < n
        invariant
            p <= n,
            n == s@.len(),
            forall|j: int| 0 <= j < p ==> s@[j] != ':',
        ensures
            p <= n,
            forall|j: int| 0 <= j < p ==> s@[j] != ':',
            p < n ==> s@[p as int] == ':',
        decreases n - p,
    {
        if s.get_char(p) == ':' {
            break;
        }
        p = p + 1;
    }
    if p == n {
        proof {
            assert(!exists|q: int| colon_at(s@, q));
        }
        return None;
    }
    proof {
        assert(colon_at(s@, p as int));
        let c = choose|q: int| colon_at(s@, q);
        assert(c == p) by {
            if c < p {
                assert(s@[c] != ':');
            }
            if p < c {
                assert(s@[p as int] == ':');
            }
        }
        assert(s@.subrange(0, p as int) =~= s@.take(p as int));
        assert(s@.subrange(p + 1, n as int) =~= s@.skip(p + 1));
    }
    let block = parse_u128_in(s, 0, p);
    let tx = parse_u128_in(s, p + 1, n);
    match (block, tx) {
        (Some(b), Some(t)) => if b <= u64::MAX as u128 && t <= u32::MAX as u128 {
            Some(RelicId { block: b as u64, tx: t as u32 })
        } else {
            None
        },
        _ => None,
    }
}

/// A relic's state: three counts that are `u64` numbers, as an object's members
/// `burned`, `mints` and `unmints` or as an array of exactly three; missing is an
/// error of its own.
pub open spec fn spec_state(v: Option<JsonValue>) -> Result<RelicState, JsonError> {
    match v {
        None => Err(JsonError::Missing(JsonField::State)),
        Some(JsonValue::Object(m)) => {
            let o = JsonValue::Object(m);
            match (
                spec_u64(member(o, JsonField::Burned)),
                spec_u64(member(o, JsonField::Mints)),
                spec_u64(member(o, JsonField::Unmints)),
            ) {
                (Some(b), Some(n), Some(u)) => Ok(
                    RelicState { burned: b as u128, mints: n as u128, unmints: u as u128 },
                ),
                _ => Err(JsonError::InvalidState),
            }
        },
        Some(JsonValue::Array(items)) => if items@.len() == 3 {
            match (spec_u64(Some(items@[0])), spec_u64(Some(items@[1])), spec_u64(Some(items@[2]))) {
                (Some(b), Some(n), Some(u)) => Ok(
                    RelicState { burned: b as u128, mints: n as u128, unmints: u as u128 },
                ),
                _ => Err(JsonError::InvalidState),
            }
        } else {
            Err(JsonError::InvalidState)
        },
        _ => Err(JsonError::InvalidState),
    }
}

/// Reads a relic's state.
pub fn state(v: Option<&JsonValue>) -> (r: Result<RelicState, JsonError>)
    ensures
        r == spec_state(deref_opt(v)),
{
    match v {
        None => Err(JsonError::Missing(JsonField::State)),
        Some(JsonValue::Object(_)) => {
            let o = v.unwrap();
            match (
                get_u64(o, JsonField::Burned),
                get_u64(o, JsonField::Mints),
                get_u64(o, JsonField::Unmints),
            ) {
                (Some(b), Some(n), Some(u)) => Ok(
                    RelicState { burned: b as u128, mints: n as u128, unmints: u as u128 },
                ),
                _ => Err(JsonError::InvalidState),
            }
        },
        Some(JsonValue::Array(items)) => {
            if items.len() != 3 {
                return Err(JsonError::InvalidState);
            }
            match (number_u64(Some(&items[0])), number_u64(Some(&items[1])), number_u64(Some(&items[2]))) {
                (Some(b), Some(n), Some(u)) => Ok(
                    RelicState { burned: b as u128, mints: n as u128, unmints: u as u128 },
                ),
                _ => Err(JsonError::InvalidState),
            }
        },
        _ => Err(JsonError::InvalidState),
    }
}

/// A number that is a `u32`, or nothing (whatever else the member holds).
pub open spec fn spec_u32(v: Option<JsonValue>) -> Option<u32> {
    match spec_u64(v) {
        Some(n) => if n <= u32::MAX {
            Some(n as u32)
        } else {
            None
        },
        None => None,
    }
}

/// A string of exactly one character, or nothing (whatever else the member holds).
pub open spec fn spec_char(v: Option<JsonValue>) -> Option<char> {
    match spec_text(v) {
        Some(t) => if t.len() == 1 {
            Some(t[0])
        } else {
            None
        },
        None => None,
    }
}

fn get_char(v: &JsonValue, f: JsonField) -> (r: Option<char>)
    ensures
        r == spec_char(member(*v, f)),
{
    match get(v, f) {
        Some(JsonValue::Text(t)) => {
            let text = t.as_str();
            if text.unicode_len() == 1 {
                Some(text.get_char(0))
            } else {
                None
            }
        },
        _ => None,
    }
}

/// What a relic's record holds, as the index server gives it.
pub struct RelicRecord {
    pub id: RelicId,
    /// the text of the owner's inscription id, where there is one
    pub owner: Option<String>,
    pub block: u64,
    pub enshrining: Txid,
    pub fee: u16,
    pub number: u64,
    pub timestamp: u64,
    pub mintable: bool,
    pub spaced_relic: SpacedRelic,
    pub mint_terms: Option<MintTerms>,
    pub state: RelicState,
    /// the sealing inscription's sequence number, where the member is a `u32`
    pub owner_sequence_number: Option<u32>,
    /// the symbol, where the member is a one-character string
    pub symbol: Option<char>,
}

/// The first reason, in the order the members are read, that a record cannot be read:
/// the mint terms, the id, the block, the enshrining transaction, the fee, the
/// number, the timestamp, whether it is mintable, the name and the state.
pub open spec fn spec_record_error(v: JsonValue) -> Option<JsonError> {
    match spec_mint_terms(member(v, JsonField::MintTerms)) {
        Err(e) => Some(e),
        Ok(_) => match spec_text(member(v, JsonField::Id)) {
            None => Some(JsonError::MissingOrInvalid(JsonField::Id)),
            Some(id) => if spec_parse_relic_id(id) is None {
                Some(JsonError::InvalidRelicId)
            } else if spec_u64(member(v, JsonField::Block)) is None {
                Some(JsonError::MissingOrInvalid(JsonField::Block))
            } else if spec_text(member(v, JsonField::Enshrining)) is None {
                Some(JsonError::MissingOrInvalid(JsonField::Enshrining))
            } else if spec_parse_txid(spec_text(member(v, JsonField::Enshrining)).unwrap()) is None {
                Some(JsonError::InvalidTxid)
            } else {
                match spec_u64(member(v, JsonField::Fee)) {
                    None => Some(JsonError::MissingOrInvalid(JsonField::Fee)),
                    Some(fee) => if fee > u16::MAX {
                        Some(JsonError::InvalidFee)
                    } else if spec_u64(member(v, JsonField::Number)) is None {
                        Some(JsonError::MissingOrInvalid(JsonField::Number))
                    } else if spec_u64(member(v, JsonField::Timestamp)) is None {
                        Some(JsonError::MissingOrInvalid(JsonField::Timestamp))
                    } else if spec_bool(member(v, JsonField::Mintable)) is None {
                        Some(JsonError::MissingOrInvalid(JsonField::Mintable))
                    } else {
                        match spec_text(member(v, JsonField::SpacedRelic)) {
                            None => Some(JsonError::MissingOrInvalid(JsonField::SpacedRelic)),
                            Some(name) => if spec_parse_name(name) is None {
                                Some(JsonError::InvalidSpacedRelic)
                            } else {
                                match spec_state(member(v, JsonField::State)) {
                                    Err(e) => Some(e),
                                    Ok(_) => None,
                                }
                            },
                        }
                    },
                }
            },
        },
    }
}

/// Reads a relic's record from the server's JSON: every member that it reads is
/// checked, in order, and the first that is missing or malformed is the error.
pub fn parse_json_to_relic(v: &JsonValue) -> (r: Result<RelicRecord, JsonError>)
    ensures
        r is Err <==> spec_record_error(*v) is Some,
        r matches Err(e) ==> spec_record_error(*v) == Some(e),
        r matches Ok(rec) ==> {
            &&& Some(rec.mint_terms) == spec_mint_terms(member(*v, JsonField::MintTerms)).ok()
            &&& Some(rec.id) == spec_parse_relic_id(spec_text(member(*v, JsonField::Id)).unwrap())
            &&& (rec.owner matches Some(o) ==> spec_text(member(*v, JsonField::Owner)) == Some(o@))
            &&& (rec.owner is None ==> spec_text(member(*v, JsonField::Owner)) is None)
            &&& Some(rec.block) == spec_u64(member(*v, JsonField::Block))
            &&& Some(rec.enshrining) == spec_parse_txid(spec_text(member(*v, JsonField::Enshrining)).unwrap())
            &&& Some(rec.fee as u64) == spec_u64(member(*v, JsonField::Fee))
            &&& Some(rec.number) == spec_u64(member(*v, JsonField::Number))
            &&& Some(rec.timestamp) == spec_u64(member(*v, JsonField::Timestamp))
            &&& Some(rec.mintable) == spec_bool(member(*v, JsonField::Mintable))
            &&& Ok::<RelicState, JsonError>(rec.state) == spec_state(member(*v, JsonField::State))
            &&& rec.owner_sequence_number == spec_u32(member(*v, JsonField::OwnerSequenceNumber))
            &&& rec.symbol == spec_char(member(*v, JsonField::Symbol))
            &&& Some((rec.spaced_relic.relic.0, rec.spaced_relic.spacers)) == spec_parse_name(
                spec_text(member(*v, JsonField::SpacedRelic)).unwrap(),
            )
        },
{
    let mint_terms = match mint_terms(get(v, JsonField::MintTerms)) {
        Ok(t) => t,
        Err(e) => return Err(e),
    };
    let id_text = match get_text(v, JsonField::Id) {
        Some(t) => t,
        None => return Err(JsonError::MissingOrInvalid(JsonField::Id)),
    };
    let id = match parse_relic_id(id_text.as_str()) {
        Some(id) => id,
        None => return Err(JsonError::InvalidRelicId),
    };
    let owner = get_text(v, JsonField::Owner);
    let block = match get_u64(v, JsonField::Block) {
        Some(b) => b,
        None => return Err(JsonError::MissingOrInvalid(JsonField::Block)),
    };
    let enshrining_text = match get_text(v, JsonField::Enshrining) {
        Some(t) => t,
        None => return Err(JsonError::MissingOrInvalid(JsonField::Enshrining)),
    };
    let enshrining = match parse_txid(enshrining_text.as_str()) {
        Some(t) => t,
        None => return Err(JsonError::InvalidTxid),
    };
    let fee = match get_u64(v, JsonField::Fee) {
        Some(f) => f,
        None => return Err(JsonError::MissingOrInvalid(JsonField::Fee)),
    };
    if fee > u16::MAX as u64 {
        return Err(JsonError::InvalidFee);
    }
    let number = match get_u64(v, JsonField::Number) {
        Some(n) => n,
        None => return Err(JsonError::MissingOrInvalid(JsonField::Number)),
    };
    let timestamp = match get_u64(v, JsonField::Timestamp) {
        Some(t) => t,
        None => return Err(JsonError::MissingOrInvalid(JsonField::Timestamp)),
    };
    let mintable = match get_bool(v, JsonField::Mintable) {
        Some(b) => b,
        None => return Err(JsonError::MissingOrInvalid(JsonField::Mintable)),
    };
    let name = match get_text(v, JsonField::SpacedRelic) {
        Some(t) => t,
        None => return Err(JsonError::MissingOrInvalid(JsonField::SpacedRelic)),
    };
    let spaced_relic = match SpacedRelic::from_str(name.as_str()) {
        Ok(s) => s,
        Err(_) => return Err(JsonError::InvalidSpacedRelic),
    };
    let state = match state(get(v, JsonField::State)) {
        Ok(s) => s,
        Err(e) => return Err(e),
    };
    let owner_sequence_number = match get_u64(v, JsonField::OwnerSequenceNumber) {
        Some(n) => if n <= u32::MAX as u64 {
            Some(n as u32)
        } else {
            None
        },
        None => None,
    };
    let symbol = get_char(v, JsonField::Symbol);
    Ok(
        RelicRecord {
            id,
            owner,
            block,
            enshrining,
            fee: fee as u16,
            number,
            timestamp,
            mintable,
            spaced_relic,
            mint_terms,
            state,
            owner_sequence_number,
            symbol,
        },
    )
}

} // verus!
