use crate::keepsake::spec_integers;
use crate::script::{encode_varint, varint_decode, varint_encoding};
use vstd::prelude::*;

verus! {

/// The varint encodings of the integers, one after the other.
pub open spec fn encode_all(s: Seq<u128>) -> Seq<u8>
    decreases s.len(),
{
    if s.len() == 0 {
        Seq::empty()
    } else {
        encode_all(s.drop_last()) + varint_encoding(s.last())
    }
}

/// The encoding of `n` is at least one byte and decodes to `n`, whatever follows it.
pub open spec fn decodes(n: u128) -> bool {
    &&& 1 <= varint_encoding(n).len() <= 19
    &&& forall|rest: Seq<u8>|
        #[trigger] varint_decode(varint_encoding(n) + rest) == Some(
            (n, varint_encoding(n).len() as usize),
        )
}

/// Every integer of the list decodes from its encoding.
pub open spec fn all_decode(s: Seq<u128>) -> bool {
    forall|j: int| 0 <= j < s.len() ==> decodes(#[trigger] s[j])
}

/// `tag, v` for each value `v`, in order.
pub open spec fn tag_pairs(tag: u128, values: Seq<u128>) -> Seq<u128>
    decreases values.len(),
{
    if values.len() == 0 {
        Seq::empty()
    } else {
        tag_pairs(tag, values.drop_last()) + seq![tag, values.last()]
    }
}

pub proof fn lemma_encode_all_append(a: Seq<u128>, b: Seq<u128>)
    ensures
        encode_all(a + b) == encode_all(a) + encode_all(b),
    decreases b.len(),
{
    if b.len() == 0 {
        assert(a + b =~= a);
        assert(encode_all(a) + encode_all(b) =~= encode_all(a));
    } else {
        assert((a + b).drop_last() =~= a + b.drop_last());
        lemma_encode_all_append(a, b.drop_last());
        assert(encode_all(a + b) =~= encode_all(a) + encode_all(b));
    }
}

pub proof fn lemma_all_decode_append(a: Seq<u128>, b: Seq<u128>)
    requires
        all_decode(a),
        all_decode(b),
    ensures
        all_decode(a + b),
{
    assert forall|j: int| 0 <= j < (a + b).len() implies decodes(#[trigger] (a + b)[j]) by {
        if j < a.len() {
            assert((a + b)[j] == a[j]);
        } else {
            assert((a + b)[j] == b[j - a.len()]);
        }
    }
}

/// The encoding of a list starts with the encoding of its first integer.
pub proof fn lemma_encode_all_front(s: Seq<u128>)
    requires
        s.len() > 0,
    ensures
        encode_all(s) == varint_encoding(s[0]) + encode_all(s.skip(1)),
    decreases s.len(),
{
    if s.len() == 1 {
        assert(s.drop_last() =~= Seq::<u128>::empty());
        assert(encode_all(s.drop_last()) =~= Seq::<u8>::empty());
        assert(s.last() == s[0]);
        assert(s.skip(1) =~= Seq::<u128>::empty());
        assert(encode_all(s) =~= varint_encoding(s[0]));
        assert(encode_all(s) =~= varint_encoding(s[0]) + encode_all(s.skip(1)));
    } else {
        lemma_encode_all_front(s.drop_last());
        assert(s.drop_last().skip(1) =~= s.skip(1).drop_last());
        assert(s.skip(1).last() == s.last());
        assert(encode_all(s) =~= varint_encoding(s[0]) + encode_all(s.skip(1)));
    }
}

/// Integers whose encodings decode give themselves back from their encoding.
pub proof fn lemma_integers_roundtrip(s: Seq<u128>)
    requires
        all_decode(s),
    ensures
        spec_integers(encode_all(s)) == Some(s),
    decreases s.len(),
{
    if s.len() == 0 {
        assert(encode_all(s) =~= Seq::<u8>::empty());
    } else {
        lemma_encode_all_front(s);
        let first = varint_encoding(s[0]);
        let rest = encode_all(s.skip(1));
        let p = encode_all(s);
        assert(decodes(s[0]));
        assert(varint_decode(first + rest) == Some((s[0], first.len() as usize)));
        assert(p.skip(first.len() as int) =~= rest);
        assert(all_decode(s.skip(1))) by {
            assert forall|j: int| 0 <= j < s.skip(1).len() implies decodes(#[trigger] s.skip(1)[j]) by {
                assert(s.skip(1)[j] == s[j + 1]);
            }
        }
        lemma_integers_roundtrip(s.skip(1));
        assert(seq![s[0]] + s.skip(1) =~= s);
    }
}

/// Appends the varint encoding of `n`.
pub fn push_varint(payload: &mut Vec<u8>, n: u128)
    ensures
        final(payload)@ == old(payload)@ + varint_encoding(n),
        decodes(n),
{
    let ghost before = payload@;
    encode_varint(n, payload);
    proof {
        assert(payload@.skip(before.len() as int) =~= varint_encoding(n));
        assert forall|rest: Seq<u8>|
            #[trigger] varint_decode(varint_encoding(n) + rest) == Some(
                (n, varint_encoding(n).len() as usize),
            ) by {
            assert(varint_decode(payload@.skip(before.len() as int) + rest) == Some(
                (n, (payload@.len() - before.len()) as usize),
            ));
        }
    }
}

/// Appends the encodings of the integers.
pub fn push_varints(payload: &mut Vec<u8>, values: &[u128])
    ensures
        final(payload)@ == old(payload)@ + encode_all(values@),
        all_decode(values@),
{
    let mut i: usize = 0;
    proof {
        assert(values@.take(0) =~= Seq::<u128>::empty());
        assert(old(payload)@ + encode_all(values@.take(0)) =~= old(payload)@);
    }
    while i < values.len()
        invariant
            i <= values@.len(),
            payload@ == old(payload)@ + encode_all(values@.take(i as int)),
            all_decode(values@.take(i as int)),
        decreases values@.len() - i,
    {
        push_varint(payload, values[i]);
        proof {
            assert(values@.take(i + 1).drop_last() =~= values@.take(i as int));
            assert(values@.take(i + 1).last() == values@[i as int]);
            assert(payload@ =~= old(payload)@ + encode_all(values@.take(i + 1)));
            assert forall|j: int| 0 <= j < i + 1 implies decodes(#[trigger] values@.take(i + 1)[j]) by {
                if j < i {
                    assert(values@.take(i + 1)[j] == values@.take(i as int)[j]);
                }
            }
        }
        i = i + 1;
    }
    proof {
        assert(values@.take(i as int) =~= values@);
    }
}

} // verus!
