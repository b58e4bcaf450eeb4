use randstream::runner::run_seeds;
use randstream::runner::run_step;
use randstream::runner::RunError;
use randstream::runner::RunState;
use randstream::runner::BLOCKS_PER_SEED;
use randstream::runner::BUF_SIZE;
use randstream::runner::BUF_WORDS;
use randstream::runner::RESEED_INTERVAL;
use randstream::sink::MemSink;
use randstream::sink::Sink;
use randstream::sink::SinkStatus;
use randstream::xorshift::advance;

const SEED_A: u64 = 0x9e3779b97f4a7c15;
const SEED_B: u64 = 12345;

/// Run one batch of seeds into a fresh unbounded sink and hand back the
/// whole output.
fn collect(seeds: &Vec<u64>) -> Vec<u8> {
    let mut sink = MemSink::new(usize::MAX);
    let st = run_seeds(&mut sink, seeds);
    assert!(matches!(st, SinkStatus::Written));
    sink.data
}

#[test]
fn configuration_invariants() {
    assert_eq!(BUF_SIZE % 8, 0);
    assert_eq!(BUF_WORDS, BUF_SIZE / 8);
    assert_eq!(RESEED_INTERVAL % BUF_WORDS, 0);
    assert_eq!(BLOCKS_PER_SEED, RESEED_INTERVAL / BUF_WORDS);
}

#[test]
fn determinism_same_seeds_same_stream() {
    let seeds = vec![SEED_A, SEED_B];
    let first_run = collect(&seeds);
    let second_run = collect(&seeds);
    assert_eq!(first_run, second_run);
    assert_eq!(first_run.len(), 2 * 8 * RESEED_INTERVAL);
}

#[test]
fn zero_seed_skip() {
    // A zero entry produces nothing and consumes no reseed budget: the
    // output is exactly that of the nonzero entries.
    let with_zero = collect(&vec![SEED_A, 0, SEED_B]);
    let without = collect(&vec![SEED_A, SEED_B]);
    assert_eq!(with_zero.len(), 2 * 8 * RESEED_INTERVAL);
    assert_eq!(with_zero, without);
}

#[test]
fn all_zero_seeds_produce_nothing() {
    assert!(collect(&vec![0, 0, 0]).is_empty());
    assert!(collect(&Vec::new()).is_empty());
}

#[test]
fn reseed_cadence_boundary() {
    // Exactly RESEED_INTERVAL words come from the first seed; the word
    // at index RESEED_INTERVAL starts the second seed's lineage.
    let both = collect(&vec![SEED_A, SEED_B]);
    let first = collect(&vec![SEED_A]);
    let second = collect(&vec![SEED_B]);
    let cut: usize = 8 * RESEED_INTERVAL;
    assert_eq!(&both[..cut], &first[..]);
    assert_eq!(&both[cut..], &second[..]);
    let (_, w) = advance(SEED_B);
    assert_eq!(&both[cut..cut + 8], &w.to_le_bytes()[..]);
}

#[test]
fn clean_shutdown_on_disconnect() {
    // The sink takes one block and then reports disconnection: the run
    // stops at once, with nothing written past the accepted block.
    let mut sink = MemSink::new(BUF_SIZE);
    let st = run_seeds(&mut sink, &vec![SEED_A, SEED_B]);
    assert!(matches!(st, SinkStatus::Disconnected));
    assert_eq!(sink.data.len(), BUF_SIZE);
}

#[test]
fn disconnect_before_first_block() {
    let mut sink = MemSink::new(0);
    let st = run_seeds(&mut sink, &vec![SEED_A]);
    assert!(matches!(st, SinkStatus::Disconnected));
    assert!(sink.data.is_empty());
}

/// A sink whose writes always fail for a reason other than
/// disconnection.
struct FailSink;

impl Sink for FailSink {
    fn write_block(&mut self, _data: &Vec<u8>) -> SinkStatus {
        SinkStatus::Failed
    }
}

#[test]
fn other_write_failure_is_fatal() {
    let mut sink = FailSink;
    let st = run_seeds(&mut sink, &vec![SEED_A]);
    assert!(matches!(st, SinkStatus::Failed));
    assert_eq!(run_step(&mut FailSink), RunState::TerminatedFatal(RunError::SinkFailure));
}

#[test]
fn error_variants_are_distinct() {
    let entropy = RunError::EntropyFailure(getrandom::Error::UNSUPPORTED);
    assert_ne!(entropy, RunError::SinkFailure);
    assert_eq!(entropy, RunError::EntropyFailure(getrandom::Error::UNSUPPORTED));
}

#[test]
fn run_step_ends_cleanly_when_consumer_disconnects() {
    // Real entropy drives this: whatever seeds arrive, the sink accepts
    // one block and disconnects, and the step reports a clean end. A
    // batch of entropy words is all but certain to hold a nonzero seed,
    // so the first step already ends the run.
    let mut sink = MemSink::new(BUF_SIZE);
    let mut steps: usize = 0;
    loop {
        match run_step(&mut sink) {
            RunState::RefillingSeeds => {
                steps += 1;
                assert!(steps < 4, "the sink never disconnected");
            }
            RunState::TerminatedClean => break,
            RunState::TerminatedFatal(e) => panic!("unexpected fatal end: {:?}", e),
        }
    }
    assert_eq!(sink.data.len() % BUF_SIZE, 0);
    assert_eq!(sink.data.len(), BUF_SIZE);
}
