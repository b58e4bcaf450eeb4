//! The xorshift64* pseudorandom word generator (Vigna 2016): three
//! shift-xor steps decorrelate the state's bits, and a final wrapping
//! multiplication by a fixed odd constant scrambles the low-order bits
//! of the emitted word.

use vstd::prelude::*;

verus! {

/// The multiplicative scrambling constant of xorshift64*.
pub const MULTIPLIER: u64 = 2685821657736338717;

/// One advance of the generator state: three fixed shift-xor steps.
pub open spec fn spec_advance(s: u64) -> u64 {
    let a = s ^ (s >> 12);
    let b = a ^ (a << 25);
    b ^ (b >> 27)
}

/// The word emitted for an (already advanced) state.
pub open spec fn spec_scramble(s: u64) -> u64 {
    vstd::wrapping::u64_specs::wrapping_mul(s, MULTIPLIER)
}

/// The generator state after `n` advances from `seed`.
pub open spec fn nth_state(seed: u64, n: nat) -> u64
    decreases n,
{
    if n == 0 {
        seed
    } else {
        spec_advance(nth_state(seed, (n - 1) as nat))
    }
}

/// The `i`-th output word (counting from 0) of the stream seeded with `seed`.
pub open spec fn stream_word(seed: u64, i: nat) -> u64 {
    spec_scramble(nth_state(seed, i + 1))
}

/// The first `n` output words of the stream seeded with `seed`.
pub open spec fn stream_words(seed: u64, n: nat) -> Seq<u64> {
    Seq::new(n, |i: int| stream_word(seed, i as nat))
}

/// Advance the state once; returns the new state and the emitted word.
pub fn advance(s: u64) -> (r: (u64, u64))
    ensures
        r.0 == spec_advance(s),
        r.1 == spec_scramble(spec_advance(s)),
{
    let a: u64 = s ^ (s >> 12);
    let b: u64 = a ^ (a << 25);
    let c: u64 = b ^ (b >> 27);
    (c, c.wrapping_mul(MULTIPLIER))
}

/// Composing advances: `n` steps and then `m` more are `n + m` steps.
pub proof fn lemma_nth_state_add(seed: u64, n: nat, m: nat)
    ensures
        nth_state(nth_state(seed, n), m) == nth_state(seed, n + m),
    decreases m,
{
    if m > 0 {
        lemma_nth_state_add(seed, n, (m - 1) as nat);
    }
}

/// Composing streams: the words after the first `n` are the words of the
/// stream restarted from the state reached after `n` advances.
pub proof fn lemma_stream_words_add(seed: u64, n: nat, m: nat)
    ensures
        stream_words(seed, n + m) == stream_words(seed, n) + stream_words(nth_state(seed, n), m),
{
    let lhs = stream_words(seed, n + m);
    let rhs = stream_words(seed, n) + stream_words(nth_state(seed, n), m);
    assert forall|i: int| 0 <= i < n + m implies lhs[i] == rhs[i] by {
        if i >= n {
            lemma_nth_state_add(seed, n, (i - n + 1) as nat);
        }
    }
    assert(lhs =~= rhs);
}

/// Produce the next `n` words from state `s`; returns the words and the
/// state after `n` advances.
pub fn fill_words(s: u64, n: usize) -> (r: (Vec<u64>, u64))
    ensures
        r.0@ == stream_words(s, n as nat),
        r.1 == nth_state(s, n as nat),
{
    let mut out: Vec<u64> = Vec::new();
    let mut cur: u64 = s;
    let mut i: usize = 0;
    while i < n
        invariant
            i <= n,
            out@.len() == i as nat,
            cur == nth_state(s, i as nat),
            forall|k: int| 0 <= k < i ==> out@[k] == stream_word(s, k as nat),
        decreases n - i,
    {
        let (next, w) = advance(cur);
        proof {
            lemma_nth_state_add(s, i as nat, 1);
        }
        cur = next;
        out.push(w);
        i = i + 1;
    }
    proof {
        assert(out@ =~= stream_words(s, n as nat));
    }
    (out, cur)
}

} // verus!
