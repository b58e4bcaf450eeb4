//! Serialization between 64-bit words and bytes.
//!
//! The byte stream that crosses the system boundary, and the seed words
//! read from the entropy source, both use one fixed byte order:
//! little-endian, eight bytes per word. This keeps the output
//! reproducible across platforms instead of depending on native memory
//! layout.

use vstd::prelude::*;

verus! {

/// The little-endian byte serialization of a word sequence.
pub open spec fn le_bytes_of(ws: Seq<u64>) -> Seq<u8>
    decreases ws.len(),
{
    if ws.len() == 0 {
        Seq::<u8>::empty()
    } else {
        le_bytes_of(ws.drop_last()) + vstd::bytes::spec_u64_to_le_bytes(ws.last())
    }
}

/// The words read, little-endian, from a byte sequence whose length is a
/// multiple of eight.
pub open spec fn words_of_le_bytes(bs: Seq<u8>) -> Seq<u64> {
    Seq::new(
        (bs.len() / 8) as nat,
        |k: int| vstd::bytes::spec_u64_from_le_bytes(bs.subrange(8 * k, 8 * k + 8)),
    )
}

/// Each word serializes to exactly eight bytes.
pub proof fn lemma_le_bytes_len(ws: Seq<u64>)
    ensures
        le_bytes_of(ws).len() == 8 * ws.len(),
    decreases ws.len(),
{
    if ws.len() > 0 {
        lemma_le_bytes_len(ws.drop_last());
        vstd::bytes::lemma_auto_spec_u64_to_from_le_bytes();
    }
}

/// Serialization distributes over concatenation of word sequences.
pub proof fn lemma_le_bytes_concat(a: Seq<u64>, b: Seq<u64>)
    ensures
        le_bytes_of(a + b) == le_bytes_of(a) + le_bytes_of(b),
    decreases b.len(),
{
    if b.len() == 0 {
        assert(a + b =~= a);
        assert(le_bytes_of(a) + le_bytes_of(b) =~= le_bytes_of(a));
    } else {
        lemma_le_bytes_concat(a, b.drop_last());
        assert((a + b).drop_last() =~= a + b.drop_last());
        assert((a + b).last() == b.last());
        assert(le_bytes_of(a) + le_bytes_of(b) =~= le_bytes_of(a) + (le_bytes_of(
            b.drop_last(),
        ) + vstd::bytes::spec_u64_to_le_bytes(b.last())));
    }
}

/// Serializing a prefix of the words yields a prefix of the bytes.
pub proof fn lemma_le_bytes_take(ws: Seq<u64>, n: int)
    requires
        0 <= n <= ws.len(),
    ensures
        le_bytes_of(ws.take(n)) == le_bytes_of(ws).take(8 * n),
{
    assert(ws =~= ws.take(n) + ws.skip(n));
    lemma_le_bytes_concat(ws.take(n), ws.skip(n));
    lemma_le_bytes_len(ws.take(n));
    assert(le_bytes_of(ws).take(8 * n) =~= le_bytes_of(ws.take(n)));
}

/// Reading a word sequence's serialized bytes back gives that sequence.
pub proof fn lemma_le_bytes_round_trip(ws: Seq<u64>)
    ensures
        words_of_le_bytes(le_bytes_of(ws)) == ws,
{
    lemma_le_bytes_len(ws);
    vstd::bytes::lemma_auto_spec_u64_to_from_le_bytes();
    assert forall|k: int| 0 <= k < ws.len() implies le_bytes_of(ws).subrange(8 * k, 8 * k + 8)
        == vstd::bytes::spec_u64_to_le_bytes(ws[k]) by {
        lemma_le_bytes_take(ws, k + 1);
        lemma_le_bytes_take(ws, k);
        lemma_le_bytes_len(ws.take(k));
        assert(ws.take(k + 1).drop_last() =~= ws.take(k));
        assert(le_bytes_of(ws).subrange(8 * k, 8 * k + 8) =~= le_bytes_of(ws).take(8 * (k + 1)).skip(
            8 * k,
        ));
        assert(le_bytes_of(ws.take(k + 1)).skip(8 * k) =~= vstd::bytes::spec_u64_to_le_bytes(
            ws.take(k + 1).last(),
        ));
    }
    assert(words_of_le_bytes(le_bytes_of(ws)) =~= ws);
}

/// Serialize a word buffer to its little-endian byte form.
pub fn serialize_words(ws: &Vec<u64>) -> (r: Vec<u8>)
    ensures
        r@ == le_bytes_of(ws@),
{
    let mut out: Vec<u8> = Vec::new();
    let mut i: usize = 0;
    while i < ws.len()
        invariant
            i <= ws@.len(),
            out@ == le_bytes_of(ws@.take(i as int)),
        decreases ws@.len() - i,
    {
        let w: u64 = ws[i];
        out.push((w & 0xff) as u8);
        out.push(((w >> 8) & 0xff) as u8);
        out.push(((w >> 16) & 0xff) as u8);
        out.push(((w >> 24) & 0xff) as u8);
        out.push(((w >> 32) & 0xff) as u8);
        out.push(((w >> 40) & 0xff) as u8);
        out.push(((w >> 48) & 0xff) as u8);
        out.push(((w >> 56) & 0xff) as u8);
        proof {
            vstd::bytes::spec_u64_to_le_bytes_to_open(w);
            assert(ws@.take(i + 1).drop_last() =~= ws@.take(i as int));
            assert(out@ =~= le_bytes_of(ws@.take(i as int)) + vstd::bytes::spec_u64_to_le_bytes(w));
            assert(out@ =~= le_bytes_of(ws@.take(i + 1)));
        }
        i = i + 1;
    }
    proof {
        assert(ws@.take(ws@.len() as int) =~= ws@);
    }
    out
}

/// Read a byte buffer, whose length is a multiple of eight, back into words.
pub fn parse_words(bs: &Vec<u8>) -> (r: Vec<u64>)
    requires
        bs@.len() % 8 == 0,
    ensures
        r@ == words_of_le_bytes(bs@),
{
    let total: usize = bs.len();
    let n: usize = total / 8;
    proof {
        vstd::arithmetic::div_mod::lemma_fundamental_div_mod(bs@.len() as int, 8);
    }
    let mut out: Vec<u64> = Vec::new();
    let mut k: usize = 0;
    while k < n
        invariant
            k <= n,
            total == bs@.len(),
            n == bs@.len() / 8,
            8 * (n as int) == total as int,
            out@.len() == k as nat,
            forall|j: int|
                0 <= j < k ==> out@[j] == vstd::bytes::spec_u64_from_le_bytes(
                    bs@.subrange(8 * j, 8 * j + 8),
                ),
        decreases n - k,
    {
        proof {
            assert(8 * (k as int) + 8 <= total as int);
        }
        let piece = vstd::slice::slice_subrange(bs.as_slice(), 8 * k, 8 * k + 8);
        let w = vstd::bytes::u64_from_le_bytes(piece);
        out.push(w);
        k = k + 1;
    }
    proof {
        assert(out@ =~= words_of_le_bytes(bs@));
    }
    out
}

} // verus!
