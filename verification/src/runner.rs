//! The generation engine: reseed scheduling, buffer filling and
//! flushing, and the termination policy.
//!
//! A run draws a batch of seed words from the entropy source, then for
//! each nonzero seed produces exactly `RESEED_INTERVAL` words — flushed
//! to the sink in `BLOCKS_PER_SEED` buffer-sized blocks — before moving
//! to the next seed; zero seeds are skipped and consume no reseed
//! budget. When the batch is exhausted a fresh one is drawn. The run
//! ends cleanly when the sink reports that its consumer disconnected,
//! and abnormally when the entropy source fails or a write fails for any
//! other reason.

use vstd::prelude::*;

use crate::encoding::le_bytes_of;
use crate::encoding::lemma_le_bytes_concat;
use crate::encoding::lemma_le_bytes_len;
use crate::encoding::lemma_le_bytes_take;
use crate::encoding::parse_words;
use crate::encoding::serialize_words;
use crate::entropy::os_entropy;
use crate::sink::Sink;
use crate::sink::SinkStatus;
use crate::xorshift::fill_words;
use crate::xorshift::lemma_nth_state_add;
use crate::xorshift::lemma_stream_words_add;
use crate::xorshift::nth_state;
use crate::xorshift::stream_words;

verus! {

/// Bytes per output buffer and per entropy request; a multiple of 8.
pub const BUF_SIZE: usize = 32 * 1024;

/// 64-bit words per buffer.
pub const BUF_WORDS: usize = BUF_SIZE / 8;

/// Words produced from one nonzero seed before the next seed is taken
/// up; a multiple of `BUF_WORDS`.
pub const RESEED_INTERVAL: usize = 64 * 1024;

/// Buffer fills that one nonzero seed drives.
pub const BLOCKS_PER_SEED: usize = RESEED_INTERVAL / BUF_WORDS;

/// The configuration invariants: buffers hold whole words, and the
/// reseed interval is a whole number of buffers.
pub proof fn lemma_config()
    ensures
        BUF_SIZE % 8 == 0,
        8 * BUF_WORDS == BUF_SIZE,
        RESEED_INTERVAL % BUF_WORDS == 0,
        BLOCKS_PER_SEED * BUF_WORDS == RESEED_INTERVAL,
        BLOCKS_PER_SEED * BUF_SIZE == 8 * RESEED_INTERVAL,
{
    assert(BUF_SIZE == 32768);
    assert(BUF_WORDS == 4096);
    assert(RESEED_INTERVAL == 65536);
    assert((65536int) / (4096int) == 16) by (nonlinear_arith);
    assert(BLOCKS_PER_SEED == 16);
    assert(BLOCKS_PER_SEED * BUF_WORDS == RESEED_INTERVAL) by (nonlinear_arith)
        requires
            BLOCKS_PER_SEED == 16,
            BUF_WORDS == 4096,
            RESEED_INTERVAL == 65536,
    ;
    assert(BLOCKS_PER_SEED * BUF_SIZE == 8 * RESEED_INTERVAL) by (nonlinear_arith)
        requires
            BLOCKS_PER_SEED == 16,
            BUF_SIZE == 32768,
            RESEED_INTERVAL == 65536,
    ;
}

/// Why a run ended abnormally.
#[derive(Clone, Copy, PartialEq, Eq, Debug)]
pub enum RunError {
    /// The operating system's entropy source failed; fatal and not
    /// retried. Carries the source's own error, unchanged.
    EntropyFailure(getrandom::Error),
    /// A sink write failed for a reason other than disconnection.
    SinkFailure,
}

/// The full output for one nonzero seed: its reseed interval's worth of
/// words, serialized little-endian.
pub open spec fn seed_bytes(seed: u64) -> Seq<u8> {
    le_bytes_of(stream_words(seed, RESEED_INTERVAL as nat))
}

/// What one seed candidate contributes to the output: a zero seed is a
/// degenerate fixed point of the generator and contributes nothing.
pub open spec fn seed_contribution(seed: u64) -> Seq<u8> {
    if seed == 0 {
        Seq::<u8>::empty()
    } else {
        seed_bytes(seed)
    }
}

/// The output for a whole batch of seed candidates, in order.
pub open spec fn seeds_output(seeds: Seq<u64>) -> Seq<u8>
    decreases seeds.len(),
{
    if seeds.len() == 0 {
        Seq::<u8>::empty()
    } else {
        seeds_output(seeds.drop_last()) + seed_contribution(seeds.last())
    }
}

/// The number of nonzero entries in a seed batch.
pub open spec fn count_nonzero(seeds: Seq<u64>) -> nat
    decreases seeds.len(),
{
    if seeds.len() == 0 {
        0
    } else {
        count_nonzero(seeds.drop_last()) + (if seeds.last() == 0 {
            0nat
        } else {
            1nat
        })
    }
}

/// A batch's output splits at any concatenation of the batch.
pub proof fn lemma_seeds_output_concat(a: Seq<u64>, b: Seq<u64>)
    ensures
        seeds_output(a + b) == seeds_output(a) + seeds_output(b),
    decreases b.len(),
{
    if b.len() == 0 {
        assert(a + b =~= a);
        assert(seeds_output(a) + seeds_output(b) =~= seeds_output(a));
    } else {
        lemma_seeds_output_concat(a, b.drop_last());
        assert((a + b).drop_last() =~= a + b.drop_last());
        assert(seeds_output(a) + seeds_output(b) =~= seeds_output(a) + (seeds_output(b.drop_last())
            + seed_contribution(b.last())));
    }
}

/// Reseed cadence: every nonzero seed contributes exactly
/// `RESEED_INTERVAL` words — eight times as many bytes — to a batch's
/// output, and zero seeds contribute nothing.
pub proof fn lemma_seeds_output_len(seeds: Seq<u64>)
    ensures
        seeds_output(seeds).len() == count_nonzero(seeds) * (8 * RESEED_INTERVAL),
    decreases seeds.len(),
{
    if seeds.len() > 0 {
        lemma_seeds_output_len(seeds.drop_last());
        let c = count_nonzero(seeds.drop_last()) as int;
        let per_seed = (8 * RESEED_INTERVAL) as int;
        assert(seeds_output(seeds.drop_last()).len() == c * per_seed);
        if seeds.last() != 0 {
            lemma_le_bytes_len(stream_words(seeds.last(), RESEED_INTERVAL as nat));
            assert(seed_contribution(seeds.last()).len() == per_seed);
            assert(count_nonzero(seeds) == c + 1);
            vstd::arithmetic::mul::lemma_mul_is_distributive_add_other_way(per_seed, c, 1);
            vstd::arithmetic::mul::lemma_mul_basics(per_seed);
            assert((c + 1) * per_seed == c * per_seed + per_seed);
            assert(seeds_output(seeds).len() == c * per_seed + per_seed);
            assert(count_nonzero(seeds) * (8 * RESEED_INTERVAL) == (c + 1) * per_seed);
            assert(seeds_output(seeds).len() == count_nonzero(seeds) * (8 * RESEED_INTERVAL));
        } else {
            assert(count_nonzero(seeds) == c);
            assert(seeds_output(seeds).len() == c * per_seed);
            assert(seeds_output(seeds).len() == count_nonzero(seeds) * (8 * RESEED_INTERVAL));
        }
    } else {
        assert(count_nonzero(seeds) == 0);
        assert(seeds_output(seeds).len() == 0);
        assert(seeds_output(seeds).len() == count_nonzero(seeds) * (8 * RESEED_INTERVAL));
    }
}

/// A batch's output is a whole number of buffers.
pub proof fn lemma_seeds_output_mod(seeds: Seq<u64>)
    ensures
        (seeds_output(seeds).len() as int) % (BUF_SIZE as int) == 0,
    decreases seeds.len(),
{
    if seeds.len() > 0 {
        lemma_seeds_output_mod(seeds.drop_last());
        if seeds.last() != 0 {
            lemma_le_bytes_len(stream_words(seeds.last(), RESEED_INTERVAL as nat));
        }
        vstd::arithmetic::div_mod::lemma_add_mod_noop(
            seeds_output(seeds.drop_last()).len() as int,
            seed_contribution(seeds.last()).len() as int,
            BUF_SIZE as int,
        );
    }
}

/// A batch holding a nonzero entry has a positive nonzero count.
proof fn lemma_count_nonzero_positive(seeds: Seq<u64>, i: int)
    requires
        0 <= i < seeds.len(),
        seeds[i] != 0,
    ensures
        count_nonzero(seeds) > 0,
    decreases seeds.len(),
{
    if i < seeds.len() - 1 {
        lemma_count_nonzero_positive(seeds.drop_last(), i);
    }
}

/// Determinism: the output is a function of the seed sequence alone, so
/// two runs over identical seed sequences produce byte-identical
/// streams.
pub proof fn lemma_determinism(s1: Seq<u64>, s2: Seq<u64>)
    requires
        s1 == s2,
    ensures
        seeds_output(s1) == seeds_output(s2),
{
}

/// Zero-seed skip: a zero entry in a batch produces no output and
/// consumes no reseed budget — the batch's output is exactly that of the
/// batch with the zero entry removed.
pub proof fn lemma_zero_seed_skip(seeds: Seq<u64>, i: int)
    requires
        0 <= i < seeds.len(),
        seeds[i] == 0,
    ensures
        seeds_output(seeds) == seeds_output(seeds.remove(i)),
    decreases seeds.len(),
{
    if i == seeds.len() - 1 {
        assert(seeds.remove(i) =~= seeds.drop_last());
        assert(seeds_output(seeds) =~= seeds_output(seeds.drop_last()));
    } else {
        lemma_zero_seed_skip(seeds.drop_last(), i);
        assert(seeds.remove(i).drop_last() =~= seeds.drop_last().remove(i));
        assert(seeds.remove(i).last() == seeds.last());
    }
}

/// Generate one nonzero seed's full reseed interval: `BLOCKS_PER_SEED`
/// buffer fills, each flushed to the sink as one block. On a write that
/// does not succeed, stop at once and hand the sink's answer back: the
/// sink then holds exactly the blocks that were accepted.
fn emit_seed<S: Sink>(sink: &mut S, seed: u64) -> (r: SinkStatus)
    requires
        seed != 0,
    ensures
        r is Written ==> final(sink).bytes() == old(sink).bytes() + seed_bytes(seed),
        !(r is Written) ==> exists|k: int|
            0 <= k <= BLOCKS_PER_SEED && final(sink).bytes() == old(sink).bytes()
                + #[trigger] seed_bytes(seed).take(k * (BUF_SIZE as int)),
        r is Disconnected ==> final(sink).disconnected(),
        r is Failed ==> final(sink).failed(),
        old(sink).disconnected() ==> r is Disconnected && final(sink).bytes() == old(sink).bytes(),
{
    let ghost orig: Seq<u8> = sink.bytes();
    let mut state: u64 = seed;
    let mut b: usize = 0;
    while b < BLOCKS_PER_SEED
        invariant
            b <= BLOCKS_PER_SEED,
            seed != 0,
            state == nth_state(seed, (b as nat) * (BUF_WORDS as nat)),
            sink.bytes() == orig + le_bytes_of(
                stream_words(seed, (b as nat) * (BUF_WORDS as nat)),
            ),
            orig == old(sink).bytes(),
            old(sink).disconnected() ==> b == 0 && *sink == *old(sink),
        decreases BLOCKS_PER_SEED - b,
    {
        let (words, next) = fill_words(state, BUF_WORDS);
        proof {
            lemma_config();
            lemma_le_bytes_len(stream_words(state, BUF_WORDS as nat));
        }
        let block = serialize_words(&words);
        let ghost done: nat = (b as nat) * (BUF_WORDS as nat);
        let st = sink.write_block(&block);
        proof {
            lemma_stream_words_add(seed, done, BUF_WORDS as nat);
            lemma_le_bytes_concat(stream_words(seed, done), stream_words(state, BUF_WORDS as nat));
        }
        match st {
            SinkStatus::Written => {
                proof {
                    lemma_nth_state_add(seed, done, BUF_WORDS as nat);
                    assert((b + 1) as nat * (BUF_WORDS as nat) == done + (BUF_WORDS as nat))
                        by (nonlinear_arith)
                        requires
                            done == (b as nat) * (BUF_WORDS as nat),
                    ;
                    assert(sink.bytes() =~= orig + le_bytes_of(
                        stream_words(seed, done + (BUF_WORDS as nat)),
                    ));
                }
                state = next;
                b = b + 1;
            },
            _ => {
                proof {
                    lemma_partial_seed_prefix(seed, b as int);
                }
                return st;
            },
        }
    }
    proof {
        lemma_config();
        assert((BLOCKS_PER_SEED as nat) * (BUF_WORDS as nat) == RESEED_INTERVAL as nat);
    }
    SinkStatus::Written
}

/// The first `k` blocks of a seed's output are a prefix of its full
/// output.
proof fn lemma_partial_seed_prefix(seed: u64, k: int)
    requires
        0 <= k <= BLOCKS_PER_SEED,
    ensures
        le_bytes_of(stream_words(seed, (k as nat) * (BUF_WORDS as nat))) == seed_bytes(seed).take(
            k * (BUF_SIZE as int),
        ),
{
    lemma_config();
    let kw = (k as nat) * (BUF_WORDS as nat);
    assert(kw <= RESEED_INTERVAL as nat) by (nonlinear_arith)
        requires
            0 <= k <= BLOCKS_PER_SEED,
            kw == (k as nat) * (BUF_WORDS as nat),
            BLOCKS_PER_SEED * BUF_WORDS == RESEED_INTERVAL,
    ;
    lemma_le_bytes_take(stream_words(seed, RESEED_INTERVAL as nat), kw as int);
    assert(stream_words(seed, RESEED_INTERVAL as nat).take(kw as int) =~= stream_words(seed, kw));
    assert(8 * kw == k * (BUF_SIZE as int)) by (nonlinear_arith)
        requires
            0 <= k,
            kw == (k as nat) * (BUF_WORDS as nat),
            8 * BUF_WORDS == BUF_SIZE,
    ;
}

/// Drive generation for one batch of seed candidates, in order: each
/// nonzero seed produces its full reseed interval; zero seeds are
/// skipped. Stops early only on the sink's say-so, with the sink then
/// holding a whole number of blocks cut from the batch's output.
pub fn run_seeds<S: Sink>(sink: &mut S, seeds: &Vec<u64>) -> (r: SinkStatus)
    ensures
        r is Written ==> final(sink).bytes() == old(sink).bytes() + seeds_output(seeds@),
        !(r is Written) ==> exists|n: int|
            0 <= n <= seeds_output(seeds@).len() && n % (BUF_SIZE as int) == 0
                && final(sink).bytes() == old(sink).bytes() + #[trigger] seeds_output(
                seeds@,
            ).take(n),
        r is Disconnected ==> final(sink).disconnected(),
        r is Failed ==> final(sink).failed(),
        !final(sink).disconnected() && !final(sink).failed() ==> r is Written,
        count_nonzero(seeds@) == 0 ==> r is Written,
        old(sink).disconnected() ==> final(sink).bytes() == old(sink).bytes(),
        old(sink).disconnected() && count_nonzero(seeds@) > 0 ==> r is Disconnected,
{
    let ghost orig: Seq<u8> = sink.bytes();
    let mut i: usize = 0;
    while i < seeds.len()
        invariant
            i <= seeds@.len(),
            sink.bytes() == orig + seeds_output(seeds@.take(i as int)),
            orig == old(sink).bytes(),
            old(sink).disconnected() ==> count_nonzero(seeds@.take(i as int)) == 0 && *sink
                == *old(sink),
        decreases seeds@.len() - i,
    {
        let s = seeds[i];
        if s != 0 {
            let st = emit_seed(sink, s);
            if !matches!(st, SinkStatus::Written) {
                proof {
                    lemma_count_nonzero_positive(seeds@, i as int);
                    let k = choose|k: int|
                        0 <= k <= BLOCKS_PER_SEED && sink.bytes() == (orig + seeds_output(
                            seeds@.take(i as int),
                        )) + #[trigger] seed_bytes(s).take(k * (BUF_SIZE as int));
                    lemma_partial_prefix_of_batch(seeds@, i as int, k);
                }
                return st;
            }
        }
        proof {
            assert(seeds@.take(i + 1).drop_last() =~= seeds@.take(i as int));
            assert(seeds@.take(i + 1).last() == seeds@[i as int]);
            assert(sink.bytes() =~= orig + seeds_output(seeds@.take(i + 1)));
        }
        i = i + 1;
    }
    proof {
        assert(seeds@.take(seeds@.len() as int) =~= seeds@);
        if old(sink).disconnected() {
            lemma_seeds_output_len(seeds@);
            assert(seeds_output(seeds@) =~= Seq::<u8>::empty());
            assert(sink.bytes() =~= orig);
        }
    }
    SinkStatus::Written
}

/// A batch's output up to block `k` of the nonzero seed at position `i`
/// is a whole-block prefix of the batch's full output.
proof fn lemma_partial_prefix_of_batch(seeds: Seq<u64>, i: int, k: int)
    requires
        0 <= i < seeds.len(),
        seeds[i] != 0,
        0 <= k <= BLOCKS_PER_SEED,
    ensures
        ({
            let n = seeds_output(seeds.take(i)).len() + k * (BUF_SIZE as int);
            0 <= n <= seeds_output(seeds).len() && n % (BUF_SIZE as int) == 0 && seeds_output(
                seeds,
            ).take(n) == seeds_output(seeds.take(i)) + seed_bytes(seeds[i]).take(
                k * (BUF_SIZE as int),
            )
        }),
{
    let s = seeds[i];
    let p = seeds_output(seeds.take(i));
    let kb = k * (BUF_SIZE as int);
    let n = p.len() + kb;

    // Split the batch's output around seed i.
    assert(seeds =~= seeds.take(i + 1) + seeds.skip(i + 1));
    lemma_seeds_output_concat(seeds.take(i + 1), seeds.skip(i + 1));
    assert(seeds.take(i + 1).drop_last() =~= seeds.take(i));
    assert(seeds.take(i + 1).last() == s);
    assert(seeds_output(seeds) == (p + seed_bytes(s)) + seeds_output(seeds.skip(i + 1)));

    // The cut point lies inside seed i's own contribution.
    lemma_le_bytes_len(stream_words(s, RESEED_INTERVAL as nat));
    lemma_config();
    assert(0 <= kb <= seed_bytes(s).len()) by (nonlinear_arith)
        requires
            kb == k * (BUF_SIZE as int),
            0 <= k <= BLOCKS_PER_SEED,
            seed_bytes(s).len() == 8 * RESEED_INTERVAL,
            BLOCKS_PER_SEED * BUF_SIZE == 8 * RESEED_INTERVAL,
    ;
    assert(seeds_output(seeds).take(n) =~= p + seed_bytes(s).take(kb));

    // The cut point is a whole number of blocks.
    lemma_seeds_output_mod(seeds.take(i));
    vstd::arithmetic::div_mod::lemma_mod_multiples_basic(k, BUF_SIZE as int);
    vstd::arithmetic::div_mod::lemma_add_mod_noop(p.len() as int, kb, BUF_SIZE as int);
}

/// Reseed cadence, positionally: within a batch's output, the nonzero
/// seed at position `i` owns exactly the `8 * RESEED_INTERVAL` bytes
/// that follow the output of the seeds before it — generation moves to
/// the next seed only once its full reseed interval is produced.
pub proof fn lemma_reseed_cadence(seeds: Seq<u64>, i: int)
    requires
        0 <= i < seeds.len(),
        seeds[i] != 0,
    ensures
        ({
            let start = seeds_output(seeds.take(i)).len() as int;
            seeds_output(seeds).subrange(start, start + 8 * (RESEED_INTERVAL as int))
                == seed_bytes(seeds[i])
        }),
{
    lemma_partial_prefix_of_batch(seeds, i, BLOCKS_PER_SEED as int);
    lemma_config();
    let start = seeds_output(seeds.take(i)).len() as int;
    let n = start + (BLOCKS_PER_SEED as int) * (BUF_SIZE as int);
    lemma_le_bytes_len(stream_words(seeds[i], RESEED_INTERVAL as nat));
    assert(seed_bytes(seeds[i]).take((BLOCKS_PER_SEED as int) * (BUF_SIZE as int)) =~= seed_bytes(
        seeds[i],
    ));
    assert(seeds_output(seeds).subrange(start, n) =~= seeds_output(seeds).take(n).skip(start));
    assert(seeds_output(seeds).take(n).skip(start) =~= seed_bytes(seeds[i]));
}

/// The runner's control state, made explicit so that the termination
/// conditions of the steady-state loop are themselves stated and
/// testable. A driver repeats [`run_step`] for as long as the state is
/// `RefillingSeeds`; the nominal steady state is unbounded production,
/// ended only by the two terminal states.
#[derive(Clone, Copy, PartialEq, Eq, Debug)]
pub enum RunState {
    /// Ready to draw the next seed batch and generate from it.
    RefillingSeeds,
    /// The sink's consumer disconnected: the run is over, and counts as
    /// a success.
    TerminatedClean,
    /// The entropy source failed, or a write failed for a reason other
    /// than disconnection: the run is over, in error.
    TerminatedFatal(RunError),
}

/// One turn of the reseed/generate/flush loop: draw one batch of seeds
/// from the entropy source and generate every nonzero seed's reseed
/// interval, flushing buffer by buffer. Which bytes appear depends on
/// the seeds the entropy source supplies, so this contract pins their
/// shape — the sink keeps what it held and grows by whole buffers, by
/// exactly one full batch's output when the loop is to continue, and not
/// at all when the entropy source fails — while [`run_seeds`] pins the
/// bytes exactly, batch against batch. A clean end is reported only once
/// the sink has answered a write with disconnection.
pub fn run_step<S: Sink>(sink: &mut S) -> (r: RunState)
    ensures
        final(sink).bytes().len() >= old(sink).bytes().len(),
        final(sink).bytes().take(old(sink).bytes().len() as int) == old(sink).bytes(),
        (final(sink).bytes().len() - old(sink).bytes().len()) % (BUF_SIZE as int) == 0,
        r is RefillingSeeds ==> exists|sds: Seq<u64>|
            sds.len() == BUF_WORDS && final(sink).bytes() == old(sink).bytes()
                + #[trigger] seeds_output(sds),
        r is TerminatedClean ==> final(sink).disconnected(),
        r == RunState::TerminatedFatal(RunError::SinkFailure) ==> final(sink).failed(),
        !final(sink).disconnected() && !final(sink).failed() ==> r is RefillingSeeds || (r matches
        RunState::TerminatedFatal(RunError::EntropyFailure(_))),
        (r matches RunState::TerminatedFatal(RunError::EntropyFailure(_))) ==> final(sink).bytes()
            == old(sink).bytes(),
        !(r matches RunState::TerminatedFatal(RunError::EntropyFailure(_))) ==> exists|
            sds: Seq<u64>,
            n: int,
        |
            sds.len() == BUF_WORDS && 0 <= n <= seeds_output(sds).len() && final(sink).bytes()
                == old(sink).bytes() + #[trigger] seeds_output(sds).take(n),
        old(sink).disconnected() ==> final(sink).bytes() == old(sink).bytes() && r
            != RunState::TerminatedFatal(RunError::SinkFailure),
{
    let raw = match os_entropy(BUF_SIZE) {
        Ok(b) => b,
        Err(e) => {
            return RunState::TerminatedFatal(RunError::EntropyFailure(e));
        },
    };
    let seeds = parse_words(&raw);
    let ghost before: Seq<u8> = sink.bytes();
    let st = run_seeds(sink, &seeds);
    proof {
        lemma_seeds_output_mod(seeds@);
        let grown = sink.bytes().len() - before.len();
        assert(grown % (BUF_SIZE as int) == 0) by {
            if !(st is Written) {
                let n = choose|n: int|
                    0 <= n <= seeds_output(seeds@).len() && n % (BUF_SIZE as int) == 0
                        && sink.bytes() == before + #[trigger] seeds_output(seeds@).take(n);
                assert(grown == n);
            }
        }
        assert(sink.bytes().take(before.len() as int) =~= before);
        if st is Written {
            assert(seeds_output(seeds@).take(seeds_output(seeds@).len() as int) =~= seeds_output(
                seeds@,
            ));
        }
    }
    match st {
        SinkStatus::Written => RunState::RefillingSeeds,
        SinkStatus::Disconnected => RunState::TerminatedClean,
        SinkStatus::Failed => RunState::TerminatedFatal(RunError::SinkFailure),
    }
}

} // verus!
