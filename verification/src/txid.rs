use bitcoin::hashes::Hash as BitcoinHash;
use std::str::FromStr;
use vstd::prelude::*;

verus! {

/// `256^n`.
pub open spec fn pow256(n: nat) -> nat
    decreases n,
{
    if n == 0 {
        1
    } else {
        256 * pow256((n - 1) as nat)
    }
}

/// The number that the bytes spell in little-endian order: `s[0]` is the least
/// significant byte.
pub open spec fn le_value(s: Seq<u8>) -> nat
    decreases s.len(),
{
    if s.len() == 0 {
        0
    } else {
        s[0] as nat + 256 * le_value(s.skip(1))
    }
}

/// A number spelled by `n` bytes is below `256^n`.
pub proof fn lemma_le_value_bound(s: Seq<u8>)
    ensures
        le_value(s) < pow256(s.len()),
    decreases s.len(),
{
    if s.len() > 0 {
        lemma_le_value_bound(s.skip(1));
        let r = le_value(s.skip(1));
        let p = pow256((s.len() - 1) as nat);
        assert(r + 1 <= p);
        assert(256 * (r + 1) <= 256 * p) by (nonlinear_arith)
            requires
                r + 1 <= p,
        ;
    }
}

/// Appending a byte adds it at the next power of 256.
pub proof fn lemma_le_value_push(s: Seq<u8>, b: u8)
    ensures
        le_value(s.push(b)) == le_value(s) + pow256(s.len()) * b,
    decreases s.len(),
{
    if s.len() == 0 {
        assert(s.push(b).skip(1) =~= Seq::<u8>::empty());
        assert(le_value(s.push(b).skip(1)) == 0);
        assert(le_value(s.push(b)) == b as nat + 256 * le_value(s.push(b).skip(1)));
        assert(pow256(0) == 1);
    } else {
        assert(s.push(b).skip(1) =~= s.skip(1).push(b));
        lemma_le_value_push(s.skip(1), b);
        let p = pow256((s.len() - 1) as nat);
        let r = le_value(s.skip(1));
        assert(pow256(s.len()) == 256 * p);
        assert(le_value(s.push(b)) == s[0] as nat + 256 * le_value(s.push(b).skip(1)));
        assert(le_value(s) == s[0] as nat + 256 * r);
        assert(256 * (r + p * b) == 256 * r + (256 * p) * b) by (nonlinear_arith);
    }
}

proof fn lemma_pow256_16()
    ensures
        pow256(16) == 0x1_0000_0000_0000_0000_0000_0000_0000_0000,
{
    reveal_with_fuel(pow256, 17);
}

/// The number in the 16 bytes from `start` on, read in little-endian order.
fn read_le_u128(bytes: &[u8], start: usize) -> (r: u128)
    requires
        start + 16 <= bytes@.len(),
    ensures
        r == le_value(bytes@.subrange(start as int, start + 16)),
{
    let mut acc: u128 = 0;
    let mut i: usize = 16;
    proof {
        assert(bytes@.subrange(start + 16, start + 16) =~= Seq::<u8>::empty());
    }
    while i > 0
        invariant
            start + 16 <= bytes@.len(),
            start + 16 <= bytes.len(),
            i <= 16,
            acc == le_value(bytes@.subrange(start + i, start + 16)),
        decreases i,
    {
        let ghost tail = bytes@.subrange(start + i, start + 16);
        let ghost next = bytes@.subrange(start + i - 1, start + 16);
        proof {
            assert(next.skip(1) =~= tail);
            lemma_le_value_bound(tail);
            lemma_pow256_16();
            lemma_pow256_mono((16 - i) as nat, 15);
        }
        let b: u8 = bytes[start + i - 1];
        acc = acc * 256 + b as u128;
        i = i - 1;
    }
    acc
}

/// `256^m <= 256^n` where `m <= n`.
proof fn lemma_pow256_mono(m: nat, n: nat)
    requires
        m <= n,
    ensures
        pow256(m) <= pow256(n),
    decreases n - m,
{
    if m < n {
        lemma_pow256_mono(m, (n - 1) as nat);
    }
}

/// Appends the 16 little-endian bytes of `n`.
fn push_le_u128(out: &mut Vec<u8>, n: u128)
    ensures
        final(out)@.len() == old(out)@.len() + 16,
        final(out)@.subrange(0, old(out)@.len() as int) == old(out)@,
        le_value(final(out)@.subrange(old(out)@.len() as int, old(out)@.len() + 16int)) == n,
{
    let ghost start = out@.len();
    let mut rest: u128 = n;
    let mut k: usize = 0;
    proof {
        assert(out@.subrange(start as int, start as int) =~= Seq::<u8>::empty());
        assert(le_value(Seq::<u8>::empty()) == 0);
        assert(pow256(0) == 1);
        assert(out@.subrange(0, start as int) =~= old(out)@);
    }
    while k < 16
        invariant
            k <= 16,
            out@.len() == start + k,
            out@.subrange(0, start as int) == old(out)@,
            le_value(out@.subrange(start as int, start + k)) + pow256(k as nat) * rest == n,
        decreases 16 - k,
    {
        let b: u8 = (rest % 256) as u8;
        let ghost before = out@.subrange(start as int, start + k);
        out.push(b);
        proof {
            assert(out@.subrange(start as int, start + k + 1) =~= before.push(b));
            lemma_le_value_push(before, b);
            let p = pow256(k as nat);
            assert(p * rest == p * b + (256 * p) * (rest / 256)) by (nonlinear_arith)
                requires
                    b == rest % 256,
            ;
            assert(out@.subrange(0, start as int) =~= old(out)@);
        }
        rest = rest / 256;
        k = k + 1;
    }
    proof {
        lemma_pow256_16();
        assert(pow256(16) * rest <= n);
        if rest > 0 {
            assert(pow256(16) * rest >= pow256(16)) by (nonlinear_arith)
                requires
                    rest > 0,
            ;
        }
    }
}

/// The id of a bitcoin transaction: 32 bytes, held as two little-endian halves
/// (`low` from bytes `0..16`, `high` from bytes `16..32`).
#[derive(Clone, Copy, Debug, PartialEq, Eq, Structural, PartialOrd, Ord, Hash)]
pub struct Txid {
    pub low: u128,
    pub high: u128,
}

impl Txid {
    /// The id whose 32 bytes are all zero.
    pub fn all_zeros() -> (t: Txid)
        ensures
            t == (Txid { low: 0, high: 0 }),
    {
        Txid { low: 0, high: 0 }
    }

    /// The id with the given 32 bytes; `None` for a slice of another length.
    pub fn from_slice(bytes: &[u8]) -> (t: Option<Txid>)
        ensures
            t is Some <==> bytes@.len() == 32,
            t matches Some(id) ==> id.low == le_value(bytes@.subrange(0, 16)) && id.high
                == le_value(bytes@.subrange(16, 32)),
    {
        if bytes.len() != 32 {
            return None;
        }
        let low = read_le_u128(bytes, 0);
        let high = read_le_u128(bytes, 16);
        Some(Txid { low, high })
    }

    /// The 32 bytes of the id.
    pub fn to_byte_array(&self) -> (bytes: Vec<u8>)
        ensures
            bytes@.len() == 32,
            le_value(bytes@.subrange(0, 16)) == self.low,
            le_value(bytes@.subrange(16, 32)) == self.high,
    {
        let mut out: Vec<u8> = Vec::new();
        push_le_u128(&mut out, self.low);
        let ghost first = out@;
        push_le_u128(&mut out, self.high);
        proof {
            assert(out@.subrange(0, 16) =~= first.subrange(0, 16));
        }
        out
    }
}

/// Reading the bytes of an id gives the id back.
pub proof fn lemma_txid_bytes_roundtrip(t: Txid, bytes: Seq<u8>)
    requires
        bytes.len() == 32,
        le_value(bytes.subrange(0, 16)) == t.low,
        le_value(bytes.subrange(16, 32)) == t.high,
    ensures
        (Txid { low: le_value(bytes.subrange(0, 16)) as u128, high: le_value(
            bytes.subrange(16, 32),
        ) as u128 }) == t,
{
}

/// The 32 bytes of the transaction id that `bitcoin::Txid::from_str` reads from a
/// text: 64 hex digits, two per byte, in the order ids are displayed (the last byte
/// first); `None` where it refuses the text.
pub open spec fn txid_bytes_from_str(s: Seq<char>) -> Option<Seq<u8>> {
    if s.len() == 64 && forall|i: int| 0 <= i < 64 ==> #[trigger] hex_digit(s[i]) is Some {
        Some(
            Seq::new(
                32,
                |k: int|
                    (hex_digit(s[2 * (31 - k)]).unwrap() * 16 + hex_digit(s[2 * (31 - k) + 1]).unwrap()) as u8,
            ),
        )
    } else {
        None
    }
}

/// The value of a hexadecimal digit, in either case.
pub open spec fn hex_digit(c: char) -> Option<u8> {
    if '0' <= c <= '9' {
        Some((c as u32 - '0' as u32) as u8)
    } else if 'a' <= c <= 'f' {
        Some((c as u32 - 'a' as u32 + 10) as u8)
    } else if 'A' <= c <= 'F' {
        Some((c as u32 - 'A' as u32 + 10) as u8)
    } else {
        None
    }
}

/// Reads a transaction id with `bitcoin::Txid::from_str`. Claimed: the bytes it gives
/// (in the id's own order, as `to_byte_array` has them) are `txid_bytes_from_str`
/// of the text, and there are 32 of them.
#[verifier::external_body]
fn txid_bytes(s: &str) -> (r: Option<Vec<u8>>)
    ensures
        r matches Some(b) ==> txid_bytes_from_str(s@) == Some(b@) && b@.len() == 32,
        r is None ==> txid_bytes_from_str(s@) is None,
{
    match bitcoin::Txid::from_str(s) {
        Ok(t) => Some(t.to_byte_array().to_vec()),
        Err(_) => None,
    }
}

/// The transaction id that a text names, as ids are displayed.
pub open spec fn spec_parse_txid(s: Seq<char>) -> Option<Txid> {
    match txid_bytes_from_str(s) {
        Some(b) => if b.len() == 32 {
            Some(
                Txid {
                    low: le_value(b.subrange(0, 16)) as u128,
                    high: le_value(b.subrange(16, 32)) as u128,
                },
            )
        } else {
            None
        },
        None => None,
    }
}

/// Parses a transaction id written as it is displayed.
pub fn parse_txid(s: &str) -> (r: Option<Txid>)
    ensures
        r == spec_parse_txid(s@),
{
    match txid_bytes(s) {
        Some(b) => Txid::from_slice(b.as_slice()),
        None => None,
    }
}

} // verus!
